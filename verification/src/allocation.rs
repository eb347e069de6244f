//! Claiming free clusters, and giving them back.

use crate::block::{blank_block, Block, BlockCache, BlockDevice, BlockIdx, Disk};
use crate::bytes::{read_u16, read_u32};
use crate::directory::ran_to;
use crate::entry::ClusterId;
use crate::error::Error;
use crate::table::{only_reads, Link};
use crate::volume::{FatSpecificInfo, FatVolume, RESERVED_ENTRIES};
use vstd::prelude::*;

verus! {

/// How the search for the next free cluster went, after a cluster was claimed.
/// What it finds is a hint, so a device error during it is not reported.
pub enum HintSearch {
    /// The device reported no error.
    Done,
    /// The search above the new cluster failed, and the one from the start of
    /// the table did not.
    Wrapped,
    /// The search that was to decide failed.
    Lost,
}

/// What allocating a cluster leads to.
pub struct Allocation {
    /// The cluster that was claimed.
    pub cluster: ClusterId,
    /// What is then known of the volume.
    pub volume: FatVolume,
    /// What the disk then holds.
    pub disk: Disk,
}

/// What freeing a chain leads to.
pub struct Freeing {
    /// What the disk then holds.
    pub disk: Disk,
    /// How many clusters were freed.
    pub freed: nat,
    /// What the last cluster that was looked at links to.
    pub end: Link,
}

/// `disk` after the `n` blocks from `start` on were filled with zeros.
pub open spec fn zeroed(disk: Disk, start: int, n: nat) -> Disk
    decreases n,
{
    if n == 0 {
        disk
    } else {
        zeroed(disk, start, (n - 1) as nat).insert((start + n - 1) as u32, blank_block())
    }
}

/// The outcome of looking for a free cluster.
pub open spec fn found_free<E>(free: Option<ClusterId>) -> Result<ClusterId, Error<E>> {
    match free {
        Some(c) => Ok(c),
        None => Err(Error::NotEnoughSpace),
    }
}

impl FatVolume {
    /// The first cluster number behind the volume.
    pub open spec fn end_cluster(self) -> int {
        self.cluster_count + 2
    }

    /// The first cluster at or above `from` and below `end` that is not in use.
    pub open spec fn first_free(self, disk: Disk, from: int, end: int) -> Option<ClusterId>
        decreases end - from,
    {
        if from >= end {
            None
        } else if self.entry(disk, ClusterId(from as u32)) == 0 {
            Some(ClusterId(from as u32))
        } else {
            self.first_free(disk, from + 1, end)
        }
    }

    /// Where the search for a free cluster begins: at the hint, if there is one.
    pub open spec fn search_start(self) -> int {
        match self.next_free_cluster {
            Some(c) if c.0 < self.end_cluster() => c.0 as int,
            _ => 2,
        }
    }

    /// The cluster that an allocation claims: the first free one from the hint
    /// on, else the first one of all.
    pub open spec fn chosen(self, disk: Disk) -> Option<ClusterId> {
        match self.first_free(disk, self.search_start(), self.end_cluster()) {
            Some(c) => Some(c),
            None => if self.search_start() > 2 {
                self.first_free(disk, 2, self.end_cluster())
            } else {
                None
            },
        }
    }

    /// The disk once `c` ends a chain, namely that of `prev` if there is one.
    pub open spec fn with_claim(self, disk: Disk, prev: Option<ClusterId>, c: ClusterId) -> Disk {
        let ended = self.with_entry(disk, c, ClusterId(ClusterId::END_OF_FILE));
        match prev {
            Some(p) => self.with_entry(ended, p, c),
            None => ended,
        }
    }

    /// Where the next search is to begin, once `c` was claimed on `disk`.
    pub open spec fn next_hint(self, disk: Disk, c: ClusterId, search: HintSearch) -> Option<
        ClusterId,
    > {
        match search {
            HintSearch::Done => match self.first_free(disk, c.0 as int, self.end_cluster()) {
                Some(hint) => Some(hint),
                None => if c.0 > 2 {
                    self.first_free(disk, 2, self.end_cluster())
                } else {
                    None
                },
            },
            HintSearch::Wrapped => self.first_free(disk, 2, self.end_cluster()),
            HintSearch::Lost => None,
        }
    }

    /// What is known of the volume once `c` was claimed on `disk`.
    pub open spec fn after_claim(self, disk: Disk, c: ClusterId, search: HintSearch) -> FatVolume {
        FatVolume {
            next_free_cluster: self.next_hint(disk, c, search),
            free_clusters_count: match self.free_clusters_count {
                Some(count) => Some((count - 1) as u32),
                None => None,
            },
            ..self
        }
    }

    /// What allocating a cluster leads to, or `None` if none is free.
    pub open spec fn allocation(
        self,
        disk: Disk,
        prev: Option<ClusterId>,
        zero: bool,
        search: HintSearch,
    ) -> Option<Allocation> {
        match self.chosen(disk) {
            Some(c) => {
                let claimed = self.with_claim(disk, prev, c);
                Some(
                    Allocation {
                        cluster: c,
                        volume: self.after_claim(claimed, c, search),
                        disk: if zero {
                            zeroed(claimed, self.block_of(c), self.blocks_per_cluster as nat)
                        } else {
                            claimed
                        },
                    },
                )
            },
            None => None,
        }
    }

    /// Can a cluster be allocated without leaving the numbers that fit? The
    /// table must be in reach, and so must the new cluster if it is to be
    /// filled with zeros; and where clusters are counted, a free one must have
    /// been counted as such.
    pub open spec fn allocation_in_reach(
        self,
        disk: Disk,
        prev: Option<ClusterId>,
        zero: bool,
    ) -> bool {
        &&& self.end_cluster() <= u32::MAX
        &&& self.entry_in_reach(ClusterId((self.end_cluster() - 1) as u32))
        &&& self.chosen(disk) matches Some(c) ==> {
            &&& self.entries_in_reach(c)
            &&& prev matches Some(p) ==> self.entries_in_reach(p)
            &&& self.free_clusters_count != Some(0u32)
            &&& zero ==> self.block_in_reach(c) && self.block_of(c) + self.blocks_per_cluster
                <= u32::MAX
        }
    }

    /// Is this a state that a device error can leave an allocation in, before the
    /// cluster was claimed? Where the tables were to be written and that failed,
    /// the first of two may have been.
    pub open spec fn claim_cut_short(
        self,
        disk: Disk,
        prev: Option<ClusterId>,
        volume: FatVolume,
        left: Disk,
    ) -> bool {
        let end = ClusterId(ClusterId::END_OF_FILE);
        volume == self && {
            ||| left == disk
            ||| self.chosen(disk) matches Some(c) && {
                let ended = self.with_entry(disk, c, end);
                ||| self.second_fat_start is Some && left == self.with_first_entry(disk, c, end)
                ||| prev matches Some(p) && {
                    ||| left == ended
                    ||| self.second_fat_start is Some && left == self.with_first_entry(ended, p, c)
                }
            }
        }
    }

    /// Is this a state that a device error can leave an allocation in, after
    /// `c` was claimed and before all of it was filled with zeros?
    pub open spec fn zeroing_cut_short(
        self,
        claimed: Disk,
        c: ClusterId,
        search: HintSearch,
        volume: FatVolume,
        left: Disk,
    ) -> bool {
        volume == self.after_claim(claimed, c, search) && exists|n: nat|
            n < self.blocks_per_cluster && left == #[trigger] zeroed(claimed, self.block_of(c), n)
    }

    /// An allocation that the device error `error` put an end to. If it struck
    /// before the cluster was claimed it was the only one; if it struck while the
    /// cluster was filled with zeros, there may have been others in the search
    /// for a hint.
    pub open spec fn allocation_fails<D: BlockDevice>(
        self,
        before: BlockCache<D>,
        prev: Option<ClusterId>,
        zero: bool,
        error: D::Error,
        after: BlockCache<D>,
        volume: FatVolume,
    ) -> bool {
        ||| {
            &&& after.failed_with(&before, error)
            &&& self.claim_cut_short(before.disk(), prev, volume, after.disk())
        }
        ||| {
            &&& zero
            &&& self.chosen(before.disk()) matches Some(c)
            &&& exists|search: HintSearch, looked: BlockCache<D>|
                {
                    &&& looked.at_or_after(&before)
                    &&& looked.untroubled(&before) <==> search is Done
                    &&& #[trigger] after.failed_with(&looked, error)
                    &&& #[trigger] self.zeroing_cut_short(
                        self.with_claim(before.disk(), prev, c),
                        c,
                        search,
                        volume,
                        after.disk(),
                    )
                }
        }
    }

    /// The first free cluster is in range and free, and none before it is.
    pub proof fn lemma_first_free(self, disk: Disk, from: int, end: int)
        requires
            0 <= from,
            end <= u32::MAX,
        ensures
            match self.first_free(disk, from, end) {
                Some(c) => {
                    &&& from <= c.0 < end
                    &&& self.entry(disk, c) == 0
                    &&& forall|k: u32|
                        from <= k < c.0 ==> #[trigger] self.entry(disk, ClusterId(k)) != 0
                },
                None => forall|k: u32|
                    from <= k < end ==> #[trigger] self.entry(disk, ClusterId(k)) != 0,
            },
        decreases end - from,
    {
        if from < end {
            self.lemma_first_free(disk, from + 1, end);
        }
    }

    /// Clusters that are in use do not change where the first free one is.
    pub proof fn lemma_first_free_skip(self, disk: Disk, from: int, to: int, end: int)
        requires
            0 <= from <= to <= end <= u32::MAX,
            forall|k: u32| from <= k < to ==> #[trigger] self.entry(disk, ClusterId(k)) != 0,
        ensures
            self.first_free(disk, from, end) == self.first_free(disk, to, end),
        decreases to - from,
    {
        if from < to {
            assert(self.entry(disk, ClusterId(from as u32)) != 0);
            self.lemma_first_free_skip(disk, from + 1, to, end);
        }
    }

    /// Look through a block of the table for a cluster that is not in use, from
    /// the entry of `from` on and up to that of `end`. If the second part of the
    /// result is `false`, the first part is the cluster to go on with.
    fn free_in_block(&self, block: &Block, from: ClusterId, end: ClusterId) -> (result: (
        ClusterId,
        bool,
    ))
        requires
            from.0 < end.0,
            self.entry_in_reach(ClusterId((end.0 - 1) as u32)),
        ensures
            ({
                let (c, free) = result;
                &&& from.0 <= c.0 <= end.0
                &&& forall|k: u32|
                    from.0 <= k < c.0 ==> {
                        &&& self.entry_block(ClusterId(k)) == self.entry_block(from)
                        &&& #[trigger] self.entry_in(block.contents@, ClusterId(k)) != 0
                    }
                &&& free ==> {
                    &&& c.0 < end.0
                    &&& self.entry_block(c) == self.entry_block(from)
                    &&& self.entry_in(block.contents@, c) == 0
                }
                &&& !free ==> c.0 > from.0
            }),
    {
        let mut current: u32 = from.0;
        match &self.fat_specific_info {
            FatSpecificInfo::Fat16(_) => {
                let mut offset: usize = (from.0 * 2 % 512) as usize;
                while offset <= 510 && current < end.0
                    invariant
                        from.0 <= current <= end.0,
                        from.0 < end.0,
                        self.fat_specific_info is Fat16,
                        end.0 * 2 - 2 <= u32::MAX,
                        offset == from.0 * 2 % 512 + (current - from.0) * 2,
                        offset <= 512,
                        offset % 2 == 0,
                        forall|k: u32|
                            from.0 <= k < current ==> {
                                &&& self.entry_block(ClusterId(k)) == self.entry_block(from)
                                &&& #[trigger] self.entry_in(block.contents@, ClusterId(k)) != 0
                            },
                    decreases end.0 - current,
                {
                    assert(self.entry_block(ClusterId(current)) == self.entry_block(from));
                    assert(self.entry_offset(ClusterId(current)) == offset);
                    if read_u16(&block.contents, offset) == 0 {
                        return (ClusterId(current), true);
                    }
                    offset += 2;
                    current += 1;
                }
            },
            FatSpecificInfo::Fat32(_) => {
                let mut offset: usize = (from.0 * 4 % 512) as usize;
                while offset <= 508 && current < end.0
                    invariant
                        from.0 <= current <= end.0,
                        from.0 < end.0,
                        self.fat_specific_info is Fat32,
                        end.0 * 4 - 4 <= u32::MAX,
                        offset == from.0 * 4 % 512 + (current - from.0) * 4,
                        offset <= 512,
                        offset % 4 == 0,
                        forall|k: u32|
                            from.0 <= k < current ==> {
                                &&& self.entry_block(ClusterId(k)) == self.entry_block(from)
                                &&& #[trigger] self.entry_in(block.contents@, ClusterId(k)) != 0
                            },
                    decreases end.0 - current,
                {
                    assert(self.entry_block(ClusterId(current)) == self.entry_block(from));
                    assert(self.entry_offset(ClusterId(current)) == offset);
                    if read_u32(&block.contents, offset) % 0x1000_0000 == 0 {
                        return (ClusterId(current), true);
                    }
                    offset += 4;
                    current += 1;
                }
            },
        }
        (ClusterId(current), false)
    }

    /// Finds the next free cluster from `start_cluster` on and before
    /// `end_cluster`.
    pub fn find_next_free_cluster<D: BlockDevice>(
        &self,
        block_cache: &mut BlockCache<D>,
        start_cluster: ClusterId,
        end_cluster: ClusterId,
    ) -> (result: Result<ClusterId, Error<D::Error>>)
        requires
            old(block_cache).clean(),
            start_cluster.0 < end_cluster.0 ==> self.entry_in_reach(
                ClusterId((end_cluster.0 - 1) as u32),
            ),
        ensures
            only_reads(
                *old(block_cache),
                *final(block_cache),
                result,
                found_free(
                    self.first_free(
                        old(block_cache).disk(),
                        start_cluster.0 as int,
                        end_cluster.0 as int,
                    ),
                ),
            ),
    {
        let ghost disk = block_cache.disk();
        let mut current_cluster = start_cluster;
        while current_cluster.0 < end_cluster.0
            invariant
                block_cache.clean(),
                block_cache.disk() == disk,
                block_cache.untroubled(old(block_cache)),
                disk == old(block_cache).disk(),
                start_cluster.0 < end_cluster.0 ==> self.entry_in_reach(
                    ClusterId((end_cluster.0 - 1) as u32),
                ),
                start_cluster.0 <= current_cluster.0,
                current_cluster.0 <= end_cluster.0 || current_cluster == start_cluster,
                self.first_free(disk, start_cluster.0 as int, end_cluster.0 as int)
                    == self.first_free(disk, current_cluster.0 as int, end_cluster.0 as int),
            decreases end_cluster.0 - current_cluster.0,
        {
            let fat_offset: u32 = match &self.fat_specific_info {
                FatSpecificInfo::Fat16(_) => current_cluster.0 * 2,
                FatSpecificInfo::Fat32(_) => current_cluster.0 * 4,
            };
            let this_fat_block_num: u32 = self.lba_start.0 + (self.fat_start.0 + fat_offset / 512);
            let block = match block_cache.read(BlockIdx(this_fat_block_num)) {
                Ok(block) => block,
                Err(e) => return Err(Error::DeviceError(e)),
            };
            let (next, free) = self.free_in_block(block, current_cluster, end_cluster);
            proof {
                assert forall|k: u32| current_cluster.0 <= k < next.0 implies #[trigger] self.entry(
                    disk,
                    ClusterId(k),
                ) != 0 by {
                    assert(self.entry_in(block.contents@, ClusterId(k)) != 0);
                }
                self.lemma_first_free_skip(
                    disk,
                    current_cluster.0 as int,
                    next.0 as int,
                    end_cluster.0 as int,
                );
            }
            if free {
                return Ok(next);
            }
            current_cluster = next;
        }
        Err(Error::NotEnoughSpace)
    }

    /// Fill the cluster `c` with zeros.
    fn zero_cluster<D: BlockDevice>(&self, block_cache: &mut BlockCache<D>, c: ClusterId) -> (result:
        Result<(), Error<D::Error>>)
        requires
            old(block_cache).clean(),
            self.block_in_reach(c),
            self.block_of(c) + self.blocks_per_cluster <= u32::MAX,
        ensures
            final(block_cache).clean(),
            match result {
                Ok(()) => {
                    &&& final(block_cache).untroubled(old(block_cache))
                    &&& final(block_cache).disk() == zeroed(
                        old(block_cache).disk(),
                        self.block_of(c),
                        self.blocks_per_cluster as nat,
                    )
                },
                Err(error) => {
                    &&& error matches Error::DeviceError(e) && final(block_cache).failed_with(
                        old(block_cache),
                        e,
                    )
                    &&& exists|n: nat|
                        n < self.blocks_per_cluster && final(block_cache).disk()
                            == #[trigger] zeroed(old(block_cache).disk(), self.block_of(c), n)
                },
            },
    {
        let first: u32 = self.cluster_to_block(c).0;
        let count: u32 = self.blocks_per_cluster as u32;
        let mut i: u32 = 0;
        while i < count
            invariant
                i <= count,
                count == self.blocks_per_cluster,
                first == self.block_of(c),
                first + count <= u32::MAX,
                block_cache.clean(),
                block_cache.untroubled(old(block_cache)),
                block_cache.disk() == zeroed(old(block_cache).disk(), first as int, i as nat),
            decreases count - i,
        {
            let _block = block_cache.blank_mut(BlockIdx(first + i));
            match block_cache.write_back() {
                Ok(()) => {},
                Err(e) => return Err(Error::DeviceError(e)),
            }
            i += 1;
        }
        Ok(())
    }

    /// Choose the cluster that an allocation is to claim.
    fn choose_cluster<D: BlockDevice>(&self, block_cache: &mut BlockCache<D>) -> (result: Result<
        ClusterId,
        Error<D::Error>,
    >)
        requires
            old(block_cache).clean(),
            self.end_cluster() <= u32::MAX,
            self.entry_in_reach(ClusterId((self.end_cluster() - 1) as u32)),
        ensures
            only_reads(
                *old(block_cache),
                *final(block_cache),
                result,
                found_free(self.chosen(old(block_cache).disk())),
            ),
    {
        let end_cluster = ClusterId(self.cluster_count + RESERVED_ENTRIES);
        let start_cluster = match self.next_free_cluster {
            Some(cluster) if cluster.0 < end_cluster.0 => cluster,
            _ => ClusterId(RESERVED_ENTRIES),
        };
        assert(start_cluster.0 == self.search_start());
        let outcome = self.find_next_free_cluster(block_cache, start_cluster, end_cluster);
        // Only "nothing free above the hint" is a reason to wrap around and
        // look below it. A read that failed has not searched that range.
        if start_cluster.0 > RESERVED_ENTRIES {
            if let Err(Error::NotEnoughSpace) = outcome {
                return self.find_next_free_cluster(
                    block_cache,
                    ClusterId(RESERVED_ENTRIES),
                    end_cluster,
                );
            }
        }
        outcome
    }

    /// Look for the cluster that the next search is to start from.
    fn find_hint<D: BlockDevice>(
        &self,
        block_cache: &mut BlockCache<D>,
        new_cluster: ClusterId,
    ) -> (hint: Option<ClusterId>)
        requires
            old(block_cache).clean(),
            self.end_cluster() <= u32::MAX,
            self.entry_in_reach(ClusterId((self.end_cluster() - 1) as u32)),
        ensures
            final(block_cache).clean(),
            final(block_cache).disk() == old(block_cache).disk(),
            final(block_cache).at_or_after(old(block_cache)),
            exists|search: HintSearch|
                (final(block_cache).untroubled(old(block_cache)) <==> search
                    == HintSearch::Done) && hint == #[trigger] self.next_hint(
                    old(block_cache).disk(),
                    new_cluster,
                    search,
                ),
    {
        let ghost disk = block_cache.disk();
        let end_cluster = ClusterId(self.cluster_count + RESERVED_ENTRIES);
        match self.find_next_free_cluster(block_cache, new_cluster, end_cluster) {
            Ok(cluster) => {
                assert(Some(cluster) == self.next_hint(disk, new_cluster, HintSearch::Done));
                Some(cluster)
            },
            Err(_) => {
                if new_cluster.0 > RESERVED_ENTRIES {
                    let ghost looked = *block_cache;
                    let hint = match self.find_next_free_cluster(
                        block_cache,
                        ClusterId(RESERVED_ENTRIES),
                        end_cluster,
                    ) {
                        Ok(cluster) => Some(cluster),
                        Err(_) => None,
                    };
                    let ghost search = if block_cache.untroubled(old(block_cache)) {
                        HintSearch::Done
                    } else if block_cache.untroubled(&looked) {
                        HintSearch::Wrapped
                    } else {
                        HintSearch::Lost
                    };
                    assert(hint == self.next_hint(disk, new_cluster, search));
                    hint
                } else {
                    let ghost search = if block_cache.untroubled(old(block_cache)) {
                        HintSearch::Done
                    } else {
                        HintSearch::Lost
                    };
                    assert(self.next_hint(disk, new_cluster, search) is None);
                    None
                }
            },
        }
    }

    /// An operation that allocates a cluster, for the end of the chain of `prev` if
    /// there is one. It succeeds even if the search for a hint fails. It fails for
    /// want of space, and then nothing changes; or with an error of the device.
    pub open spec fn allocates<D: BlockDevice>(
        self,
        before: BlockCache<D>,
        prev: Option<ClusterId>,
        zero: bool,
        after: BlockCache<D>,
        volume: FatVolume,
        result: Result<ClusterId, Error<D::Error>>,
    ) -> bool {
        let disk = before.disk();
        match result {
            Ok(c) => {
                &&& after.at_or_after(&before)
                &&& exists|search: HintSearch|
                    {
                        &&& after.untroubled(&before) <==> search == HintSearch::Done
                        &&& #[trigger] self.allocation(disk, prev, zero, search) == Some(
                            (Allocation { cluster: c, volume, disk: after.disk() }),
                        )
                    }
            },
            Err(Error::NotEnoughSpace) => {
                &&& after.untroubled(&before)
                &&& self.chosen(disk) is None
                &&& volume == self
                &&& after.disk() == disk
            },
            Err(Error::DeviceError(e)) => {
                &&& after.faults() > before.faults()
                &&& self.allocation_fails(before, prev, zero, e, after, volume)
            },
            Err(_) => false,
        }
    }

    /// Tries to allocate a cluster: the first free one from the hint on, or if
    /// there is none the first one of all. It becomes the end of a chain, which
    /// is that of `prev_cluster` if there is one.
    ///
    /// Once that is done the allocation has happened. The search for the hint
    /// that the next one starts from may fail without this call failing.
    pub fn alloc_cluster<D: BlockDevice>(
        &mut self,
        block_cache: &mut BlockCache<D>,
        prev_cluster: Option<ClusterId>,
        zero: bool,
    ) -> (result: Result<ClusterId, Error<D::Error>>)
        requires
            old(block_cache).clean(),
            old(self).allocation_in_reach(old(block_cache).disk(), prev_cluster, zero),
        ensures
            final(self).same_layout(*old(self)),
            final(block_cache).clean(),
            old(self).allocates(
                *old(block_cache),
                prev_cluster,
                zero,
                *final(block_cache),
                *final(self),
                result,
            ),
    {
        let ghost disk = block_cache.disk();
        let ghost volume = *self;
        let new_cluster = match self.choose_cluster(block_cache) {
            Ok(cluster) => cluster,
            Err(e) => return Err(e),
        };
        assert(volume.chosen(disk) == Some(new_cluster));
        // This new cluster is the end of the file's chain
        match self.update_fat(block_cache, new_cluster, ClusterId(ClusterId::END_OF_FILE)) {
            Ok(()) => {},
            Err(e) => return Err(e),
        }
        // If there's something before this new one, update the FAT to point it at us
        if let Some(cluster) = prev_cluster {
            match self.update_fat(block_cache, cluster, new_cluster) {
                Ok(()) => {},
                Err(e) => return Err(e),
            }
        }
        let ghost claimed = block_cache.disk();
        assert(claimed == volume.with_claim(disk, prev_cluster, new_cluster));
        // From here on the allocation has happened; what is left is a hint
        let hint = self.find_hint(block_cache, new_cluster);
        let ghost looked = *block_cache;
        let ghost search = choose|search: HintSearch|
            (looked.untroubled(old(block_cache)) <==> search == HintSearch::Done) && hint
                == #[trigger] volume.next_hint(claimed, new_cluster, search);
        self.next_free_cluster = hint;
        // Record that we've allocated a cluster
        if let Some(count) = self.free_clusters_count {
            self.free_clusters_count = Some(count - 1);
        }
        assert(*self == volume.after_claim(claimed, new_cluster, search));
        if zero {
            match self.zero_cluster(block_cache, new_cluster) {
                Ok(()) => {},
                Err(e) => {
                    assert(volume.zeroing_cut_short(
                        claimed,
                        new_cluster,
                        search,
                        *self,
                        block_cache.disk(),
                    ));
                    return Err(e);
                },
            }
        }
        assert(volume.allocation(disk, prev_cluster, zero, search) == Some(
            (Allocation { cluster: new_cluster, volume: *self, disk: block_cache.disk() }),
        ));
        Ok(new_cluster)
    }

    /// What freeing the chain from `next` on leads to, if that ends within `n`
    /// clusters whose entries are all in reach. Each cluster is looked at after
    /// those before it were freed.
    pub open spec fn freed_within(self, disk: Disk, next: ClusterId, n: nat) -> Option<Freeing>
        decreases n,
    {
        if n == 0 || next.0 > u32::MAX / 4 || !self.entries_in_reach(next) {
            None
        } else {
            let freed = self.with_entry(disk, next, ClusterId(ClusterId::EMPTY));
            match self.link(disk, next) {
                Link::Next(c) => match self.freed_within(freed, c, (n - 1) as nat) {
                    Some(rest) => Some(Freeing { freed: rest.freed + 1, ..rest }),
                    None => None,
                },
                Link::End => Some(Freeing { disk: freed, freed: 1, end: Link::End }),
                link => Some(Freeing { disk, freed: 0, end: link }),
            }
        }
    }

    /// What freeing the chain from `next` on leads to, or `None` if it does not
    /// end or goes out of reach.
    pub open spec fn freeing(self, disk: Disk, next: ClusterId) -> Option<Freeing> {
        if exists|n: nat| self.freed_within(disk, next, n) is Some {
            self.freed_within(disk, next, choose|n: nat| self.freed_within(disk, next, n) is Some)
        } else {
            None
        }
    }

    /// The disk after `k` clusters of the chain from `next` on were freed, and
    /// the cluster that comes after them.
    pub open spec fn freed_steps(self, disk: Disk, next: ClusterId, k: nat) -> (Disk, ClusterId)
        decreases k,
    {
        if k == 0 {
            (disk, next)
        } else {
            let (before, c) = self.freed_steps(disk, next, (k - 1) as nat);
            (
                self.with_entry(before, c, ClusterId(ClusterId::EMPTY)),
                self.link(before, c)->Next_0,
            )
        }
    }

    /// What is known of the volume once `freed` clusters from `next` on are free:
    /// the next search starts no higher than there, and each of them counts.
    pub open spec fn after_freeing(self, next: ClusterId, freed: nat) -> FatVolume {
        FatVolume {
            next_free_cluster: match self.next_free_cluster {
                Some(hint) if hint.0 <= next.0 => Some(hint),
                _ => Some(next),
            },
            free_clusters_count: match self.free_clusters_count {
                Some(count) => Some((count + freed) as u32),
                None => None,
            },
            ..self
        }
    }

    /// Can the chain behind `cluster` be freed without leaving the numbers that
    /// fit, and does that come to an end?
    pub open spec fn truncation_in_reach(self, disk: Disk, cluster: ClusterId) -> bool {
        cluster.0 >= 2 ==> {
            &&& cluster.0 <= u32::MAX / 4
            &&& self.entry_in_reach(cluster)
            &&& self.link(disk, cluster) matches Link::Next(next) ==> {
                let ended = self.with_entry(disk, cluster, ClusterId(ClusterId::END_OF_FILE));
                &&& self.entries_in_reach(cluster)
                &&& self.freeing(ended, next) matches Some(f) && (
                self.free_clusters_count matches Some(count) ==> count + f.freed <= u32::MAX)
            }
        }
    }

    /// Is this a state that a device error can leave a truncation in?
    pub open spec fn truncation_cut_short(
        self,
        disk: Disk,
        cluster: ClusterId,
        volume: FatVolume,
        left: Disk,
    ) -> bool {
        let end = ClusterId(ClusterId::END_OF_FILE);
        ||| volume == self && left == disk
        ||| self.link(disk, cluster) matches Link::Next(next) && {
            ||| volume == self.after_freeing(next, 0) && left == disk
            ||| self.second_fat_start is Some && volume == self.after_freeing(next, 0) && left
                == self.with_first_entry(disk, cluster, end)
            ||| self.freeing_cut_short(self.with_entry(disk, cluster, end), next, volume, left)
        }
    }

    /// Is this a state that a device error can leave the freeing of the chain
    /// from `next` on in?
    pub open spec fn freeing_cut_short(
        self,
        disk: Disk,
        next: ClusterId,
        volume: FatVolume,
        left: Disk,
    ) -> bool {
        exists|k: nat|
            volume == self.after_freeing(next, k) && {
                let (freed, c) = #[trigger] self.freed_steps(disk, next, k);
                ||| left == freed
                ||| self.second_fat_start is Some && left == self.with_first_entry(
                    freed,
                    c,
                    ClusterId(ClusterId::EMPTY),
                )
            }
    }

    /// More steps than it takes change nothing.
    proof fn lemma_freed_within(self, disk: Disk, next: ClusterId, n: nat, m: nat)
        requires
            self.freed_within(disk, next, n) is Some,
            n <= m,
        ensures
            self.freed_within(disk, next, m) == self.freed_within(disk, next, n),
        decreases n,
    {
        if let Link::Next(c) = self.link(disk, next) {
            let freed = self.with_entry(disk, next, ClusterId(ClusterId::EMPTY));
            self.lemma_freed_within(freed, c, (n - 1) as nat, (m - 1) as nat);
        }
    }

    /// Any number of steps that is enough gives what freeing leads to.
    pub proof fn lemma_freeing(self, disk: Disk, next: ClusterId, n: nat)
        requires
            self.freed_within(disk, next, n) is Some,
        ensures
            self.freeing(disk, next) == self.freed_within(disk, next, n),
    {
        let m = choose|m: nat| self.freed_within(disk, next, m) is Some;
        if n <= m {
            self.lemma_freed_within(disk, next, n, m);
        } else {
            self.lemma_freed_within(disk, next, m, n);
        }
    }

    /// An operation that truncates the chain of `cluster` behind that cluster, and
    /// frees what comes behind it. Where the device reports an error, that is the
    /// outcome, and the rest of the chain may be freed in part.
    pub open spec fn truncates<D: BlockDevice>(
        self,
        before: BlockCache<D>,
        cluster: ClusterId,
        after: BlockCache<D>,
        volume: FatVolume,
        result: Result<(), Error<D::Error>>,
    ) -> bool {
        let disk = before.disk();
        let unchanged = volume == self && after.disk() == disk;
        if after.untroubled(&before) {
            if cluster.0 < 2 {
                result is Ok && unchanged
            } else {
                match self.link(disk, cluster) {
                    Link::Next(next) => {
                        let ended = self.with_entry(
                            disk,
                            cluster,
                            ClusterId(ClusterId::END_OF_FILE),
                        );
                        let f = self.freeing(ended, next)->0;
                        &&& after.disk() == f.disk
                        &&& volume == self.after_freeing(next, f.freed)
                        &&& result == ran_to::<D::Error>(f.end)
                    },
                    link => {
                        &&& unchanged
                        &&& result == ran_to::<D::Error>(link)
                    },
                }
            }
        } else {
            &&& result matches Err(Error::DeviceError(e)) && after.failed_with(&before, e)
            &&& self.truncation_cut_short(disk, cluster, volume, after.disk())
        }
    }

    /// Marks the input cluster as an EOF and all the subsequent clusters in the
    /// chain as free.
    pub fn truncate_cluster_chain<D: BlockDevice>(
        &mut self,
        block_cache: &mut BlockCache<D>,
        cluster: ClusterId,
    ) -> (result: Result<(), Error<D::Error>>)
        requires
            old(block_cache).clean(),
            old(self).truncation_in_reach(old(block_cache).disk(), cluster),
        ensures
            final(block_cache).clean(),
            old(self).truncates(
                *old(block_cache),
                cluster,
                *final(block_cache),
                *final(self),
                result,
            ),
    {
        let ghost disk = block_cache.disk();
        let ghost volume = *self;
        if cluster.0 < RESERVED_ENTRIES {
            // file doesn't have any valid cluster allocated, there is nothing to do
            return Ok(());
        }
        let first = match self.next_cluster(block_cache, cluster) {
            Ok(n) => n,
            Err(Error::EndOfFile) => return Ok(()),
            Err(e) => return Err(e),
        };
        match self.next_free_cluster {
            Some(hint) => {
                if hint.0 > first.0 {
                    self.next_free_cluster = Some(first);
                }
            },
            None => {
                self.next_free_cluster = Some(first);
            },
        }
        assert(*self == volume.after_freeing(first, 0));
        match self.update_fat(block_cache, cluster, ClusterId(ClusterId::END_OF_FILE)) {
            Ok(()) => {},
            Err(e) => return Err(e),
        }
        let ghost ended = block_cache.disk();
        let ghost whole = volume.freeing(ended, first)->0;
        let ghost mut fuel = choose|n: nat| volume.freed_within(ended, first, n) is Some;
        let ghost mut k: nat = 0;
        let mut next = first;
        assert(volume.freed_steps(ended, first, 0) == (ended, first));
        loop
            invariant
                block_cache.clean(),
                block_cache.untroubled(old(block_cache)),
                disk == old(block_cache).disk(),
                volume == *old(self),
                cluster.0 >= 2,
                volume.link(disk, cluster) == Link::Next(first),
                ended == volume.with_entry(disk, cluster, ClusterId(ClusterId::END_OF_FILE)),
                volume.freeing(ended, first) == Some(whole),
                volume.free_clusters_count matches Some(count) ==> count + whole.freed
                    <= u32::MAX,
                *self == volume.after_freeing(first, k),
                volume.freed_steps(ended, first, k) == (block_cache.disk(), next),
                volume.freed_within(block_cache.disk(), next, fuel) matches Some(rest)
                    && rest.disk == whole.disk && rest.end == whole.end && rest.freed + k
                    == whole.freed,
            decreases fuel,
        {
            let ghost current = block_cache.disk();
            let ghost here = next;
            proof {
                assert(volume.freed_steps(ended, first, k) == (current, here));
                assert(volume.freed_steps(ended, first, k + 1) == (
                    volume.with_entry(current, here, ClusterId(ClusterId::EMPTY)),
                    volume.link(current, here)->Next_0,
                ));
            }
            match self.next_cluster(block_cache, next) {
                Ok(n) => {
                    match self.update_fat(block_cache, next, ClusterId(ClusterId::EMPTY)) {
                        Ok(()) => {},
                        Err(e) => return Err(e),
                    }
                    next = n;
                },
                Err(Error::EndOfFile) => {
                    match self.update_fat(block_cache, next, ClusterId(ClusterId::EMPTY)) {
                        Ok(()) => {},
                        Err(e) => return Err(e),
                    }
                    if let Some(count) = self.free_clusters_count {
                        self.free_clusters_count = Some(count + 1);
                    }
                    return Ok(());
                },
                Err(e) => return Err(e),
            }
            if let Some(count) = self.free_clusters_count {
                self.free_clusters_count = Some(count + 1);
            }
            proof {
                fuel = (fuel - 1) as nat;
                k = k + 1;
            }
        }
    }

    /// What is known of the volume once the cluster `c`, which nothing names,
    /// was handed back.
    pub open spec fn after_release(self, c: ClusterId) -> FatVolume {
        FatVolume {
            next_free_cluster: Some(c),
            free_clusters_count: match self.free_clusters_count {
                Some(count) => if count == u32::MAX {
                    Some(count)
                } else {
                    Some((count + 1) as u32)
                },
                None => None,
            },
            ..self
        }
    }

    /// Hand back a cluster that was allocated but never named.
    ///
    /// This only runs after something else has already failed, so it is best
    /// effort by nature. The free count is adjusted only if the FAT write
    /// actually landed: a count claiming space that is still allocated hands
    /// out clusters which are not there, where a merely pessimistic one only
    /// wastes them.
    pub fn release_unpublished_cluster<D: BlockDevice>(
        &mut self,
        block_cache: &mut BlockCache<D>,
        cluster: ClusterId,
    )
        requires
            old(block_cache).clean(),
            old(self).entries_in_reach(cluster),
        ensures
            final(block_cache).clean(),
            ({
                let disk = old(block_cache).disk();
                let empty = ClusterId(ClusterId::EMPTY);
                if final(block_cache).untroubled(old(block_cache)) {
                    &&& *final(self) == old(self).after_release(cluster)
                    &&& final(block_cache).disk() == old(self).with_entry(disk, cluster, empty)
                } else {
                    &&& final(block_cache).failed_with(
                        old(block_cache),
                        final(block_cache).last_fault(),
                    )
                    &&& *final(self) == *old(self)
                    &&& {
                        ||| final(block_cache).disk() == disk
                        ||| old(self).second_fat_start is Some && final(block_cache).disk() == old(
                            self,
                        ).with_first_entry(disk, cluster, empty)
                    }
                }
            }),
    {
        if let Ok(()) = self.update_fat(block_cache, cluster, ClusterId(ClusterId::EMPTY)) {
            if let Some(count) = self.free_clusters_count {
                self.free_clusters_count = Some(count.saturating_add(1));
            }
            // Free again, so as good a place as any to look next.
            self.next_free_cluster = Some(cluster);
        }
    }
}

} // verus!
