//! Showing the entries of a directory to a visitor.

use crate::block::{BlockCache, BlockDevice, Disk};
use crate::directory::{end_link, ran_to, Cursor, Met, Step};
use crate::entry::{
    slot_entry, slot_is_end, slot_is_valid, ClusterId, DirEntry, DirectoryInfo, EntryView,
    OnDiskDirEntry,
};
use crate::error::Error;
use crate::table::Link;
use crate::volume::{Fat16Info, Fat32Info, FatSpecificInfo, FatVolume};
use core::ops::ControlFlow;
use vstd::prelude::*;

verus! {

/// A way of learning something from the entries of a directory.
pub trait Watcher {
    /// What has been learned.
    type State;

    /// What is known after one more entry was shown, along with the bytes that
    /// it is stored as, and whether that is enough. An implementation that is not
    /// verified need not say.
    open spec fn shown(state: Self::State, entry: EntryView, raw: Seq<u8>) -> (Self::State, bool) {
        arbitrary()
    }
}

/// Someone who is shown the entries of a directory, one after the other.
pub trait EntryVisitor: Watcher + Sized {
    /// What the visitor has learned so far. An implementation that is not
    /// verified need not say.
    open spec fn state(&self) -> Self::State {
        arbitrary()
    }

    /// Look at an entry, and the bytes that it is stored as. A visitor that
    /// breaks is shown no more.
    fn visit(&mut self, entry: &DirEntry, raw: &OnDiskDirEntry) -> (flow: ControlFlow<()>)
        requires
            raw@.len() == 32,
        ensures
            Self::shown(old(self).state(), entry@, raw@) == (final(self).state(), flow is Break),
    ;
}

/// What showing the entries of a directory leads to.
pub struct Visit<S> {
    /// What was learned.
    pub state: S,
    /// The link that the walk came to: the end, unless the chain is broken.
    pub end: Link,
}

impl FatVolume {
    /// What showing the entries from `at` on leads to, if that ends within `n`
    /// steps and stays in reach. It ends with the directory, with the first slot
    /// that was never used, or when the watcher has seen enough.
    pub open spec fn visited_within<W: Watcher>(
        self,
        disk: Disk,
        at: Cursor,
        state: W::State,
        n: nat,
    ) -> Option<Visit<W::State>>
        decreases n,
    {
        if n == 0 {
            None
        } else {
            match self.step(disk, at) {
                Step::Slot(slot, raw, next) => if slot_is_end(raw) {
                    Some(Visit { state, end: Link::End })
                } else if !slot_is_valid(raw) {
                    self.visited_within::<W>(disk, next, state, (n - 1) as nat)
                } else {
                    let entry = slot_entry(raw, self.fat_type(), slot.block.0, slot.offset);
                    let (learned, enough) = W::shown(state, entry, raw);
                    if enough {
                        Some(Visit { state: learned, end: Link::End })
                    } else {
                        self.visited_within::<W>(disk, next, learned, (n - 1) as nat)
                    }
                },
                Step::Enter(next) => self.visited_within::<W>(disk, next, state, (n - 1) as nat),
                Step::End(end) => Some(Visit { state, end: end_link(end) }),
                Step::OutOfReach => None,
            }
        }
    }

    /// What showing the entries from `at` on leads to, or `None` if that does
    /// not end or goes out of reach.
    pub open spec fn visited_from<W: Watcher>(
        self,
        disk: Disk,
        at: Cursor,
        state: W::State,
    ) -> Option<Visit<W::State>> {
        if exists|n: nat| self.visited_within::<W>(disk, at, state, n) is Some {
            self.visited_within::<W>(
                disk,
                at,
                state,
                choose|n: nat| self.visited_within::<W>(disk, at, state, n) is Some,
            )
        } else {
            None
        }
    }

    /// What showing the entries of a directory leads to, or `None` as above.
    pub open spec fn visited<W: Watcher>(
        self,
        disk: Disk,
        dir: ClusterId,
        state: W::State,
    ) -> Option<Visit<W::State>> {
        if self.dir_in_reach(dir) {
            self.visited_from::<W>(disk, self.dir_start(dir), state)
        } else {
            None
        }
    }

    /// The place and what has been learned after `k` steps from `at` on.
    pub open spec fn visit_steps<W: Watcher>(
        self,
        disk: Disk,
        at: Cursor,
        state: W::State,
        k: nat,
    ) -> (Cursor, W::State)
        decreases k,
    {
        if k == 0 {
            (at, state)
        } else {
            let (here, known) = self.visit_steps::<W>(disk, at, state, (k - 1) as nat);
            match self.step(disk, here) {
                Step::Slot(slot, raw, next) => {
                    let entry = slot_entry(raw, self.fat_type(), slot.block.0, slot.offset);
                    if slot_is_valid(raw) {
                        (next, W::shown(known, entry, raw).0)
                    } else {
                        (next, known)
                    }
                },
                Step::Enter(next) => (next, known),
                _ => (here, known),
            }
        }
    }

    /// More steps than it takes change nothing.
    proof fn lemma_visited_within<W: Watcher>(
        self,
        disk: Disk,
        at: Cursor,
        state: W::State,
        n: nat,
        m: nat,
    )
        requires
            self.visited_within::<W>(disk, at, state, n) is Some,
            n <= m,
        ensures
            self.visited_within::<W>(disk, at, state, m) == self.visited_within::<W>(
                disk,
                at,
                state,
                n,
            ),
        decreases n,
    {
        match self.step(disk, at) {
            Step::Slot(slot, raw, next) => {
                let entry = slot_entry(raw, self.fat_type(), slot.block.0, slot.offset);
                if !slot_is_end(raw) {
                    if !slot_is_valid(raw) {
                        self.lemma_visited_within::<W>(
                            disk,
                            next,
                            state,
                            (n - 1) as nat,
                            (m - 1) as nat,
                        );
                    } else if !W::shown(state, entry, raw).1 {
                        self.lemma_visited_within::<W>(
                            disk,
                            next,
                            W::shown(state, entry, raw).0,
                            (n - 1) as nat,
                            (m - 1) as nat,
                        );
                    }
                }
            },
            Step::Enter(next) => {
                self.lemma_visited_within::<W>(disk, next, state, (n - 1) as nat, (m - 1) as nat);
            },
            _ => {},
        }
    }

    /// Any number of steps that is enough gives what the visit leads to.
    pub proof fn lemma_visited_from<W: Watcher>(
        self,
        disk: Disk,
        at: Cursor,
        state: W::State,
        n: nat,
    )
        requires
            self.visited_within::<W>(disk, at, state, n) is Some,
        ensures
            self.visited_from::<W>(disk, at, state) == self.visited_within::<W>(disk, at, state, n),
    {
        let m = choose|m: nat| self.visited_within::<W>(disk, at, state, m) is Some;
        if n <= m {
            self.lemma_visited_within::<W>(disk, at, state, n, m);
        } else {
            self.lemma_visited_within::<W>(disk, at, state, m, n);
        }
    }

    /// An operation that shows the entries from `start` on to someone who knows
    /// `first` before and `last` after it. It leaves the disk as it was. If the
    /// device reports an error, that is the outcome, and the entries up to some
    /// place have been shown.
    pub open spec fn shows<D: BlockDevice, W: Watcher>(
        self,
        before: BlockCache<D>,
        after: BlockCache<D>,
        start: Cursor,
        first: W::State,
        last: W::State,
        result: Result<(), Error<D::Error>>,
    ) -> bool {
        &&& after.clean()
        &&& after.disk() == before.disk()
        &&& if after.untroubled(&before) {
            &&& self.visited_from::<W>(before.disk(), start, first) matches Some(visit)
            &&& last == visit.state
            &&& result == ran_to::<D::Error>(visit.end)
        } else {
            &&& result matches Err(Error::DeviceError(e)) && after.failed_with(&before, e)
            &&& exists|k: nat|
                last == (#[trigger] self.visit_steps::<W>(before.disk(), start, first, k)).1
        }
    }

    /// Show every valid entry from `start` on.
    fn show_entries<D: BlockDevice, V: EntryVisitor>(
        &self,
        block_cache: &mut BlockCache<D>,
        start: Cursor,
        visitor: &mut V,
    ) -> (result: Result<(), Error<D::Error>>)
        requires
            old(block_cache).clean(),
            start.wf(),
            self.visited_from::<V>(old(block_cache).disk(), start, old(visitor).state()) is Some,
        ensures
            self.shows::<D, V>(
                *old(block_cache),
                *final(block_cache),
                start,
                old(visitor).state(),
                final(visitor).state(),
                result,
            ),
    {
        let ghost disk = block_cache.disk();
        let ghost first = visitor.state();
        let ghost whole = self.visited_from::<V>(disk, start, first)->0;
        let ghost mut fuel = choose|n: nat|
            self.visited_within::<V>(disk, start, first, n) is Some;
        let ghost mut k: nat = 0;
        let fat_type = self.get_fat_type();
        let mut at = start;
        assert(self.visit_steps::<V>(disk, start, first, 0) == (at, visitor.state()));
        loop
            invariant
                block_cache.clean(),
                block_cache.disk() == disk,
                disk == old(block_cache).disk(),
                first == old(visitor).state(),
                block_cache.untroubled(old(block_cache)),
                fat_type == self.fat_type(),
                at.wf(),
                self.visited_from::<V>(disk, start, first) == Some(whole),
                self.visited_within::<V>(disk, at, visitor.state(), fuel) == Some(whole),
                self.visit_steps::<V>(disk, start, first, k) == (at, visitor.state()),
            decreases fuel,
        {
            let ghost here = at;
            let ghost known = visitor.state();
            let met = match self.advance(block_cache, &mut at) {
                Ok(met) => met,
                Err(e) => {
                    assert(self.visit_steps::<V>(disk, start, first, k).1 == visitor.state());
                    return Err(e);
                },
            };
            match met {
                Met::Slot(slot, dir_entry) => {
                    if dir_entry.is_end() {
                        // Can quit early
                        return Ok(());
                    }
                    if dir_entry.is_valid() {
                        let entry = dir_entry.get_entry(fat_type, slot.block, slot.offset);
                        if let ControlFlow::Break(_) = visitor.visit(&entry, &dir_entry) {
                            // Can quit early
                            return Ok(());
                        }
                    }
                },
                Met::Cluster => {},
                Met::EndOfRegion => return Ok(()),
                Met::EndOfChain(_) => return Ok(()),
            }
            proof {
                assert(self.visit_steps::<V>(disk, start, first, k) == (here, known));
                fuel = (fuel - 1) as nat;
                k = k + 1;
            }
        }
    }

    /// Shows every valid entry of the given directory to `visitor`, up to the
    /// end of the directory or until the visitor breaks. Useful for performing
    /// directory listings.
    pub fn iterate_dir<D: BlockDevice, V: EntryVisitor>(
        &self,
        block_cache: &mut BlockCache<D>,
        dir_info: &DirectoryInfo,
        visitor: &mut V,
    ) -> (result: Result<(), Error<D::Error>>)
        requires
            old(block_cache).clean(),
            self.visited::<V>(
                old(block_cache).disk(),
                dir_info.cluster,
                old(visitor).state(),
            ) is Some,
        ensures
            self.shows::<D, V>(
                *old(block_cache),
                *final(block_cache),
                self.dir_start(dir_info.cluster),
                old(visitor).state(),
                final(visitor).state(),
                result,
            ),
    {
        match &self.fat_specific_info {
            FatSpecificInfo::Fat16(fat16_info) => self.iterate_fat16(
                dir_info,
                fat16_info,
                block_cache,
                visitor,
            ),
            FatSpecificInfo::Fat32(fat32_info) => self.iterate_fat32(
                dir_info,
                fat32_info,
                block_cache,
                visitor,
            ),
        }
    }

    /// Shows every valid entry of the given FAT16 directory to `visitor`.
    ///
    /// Root directories on FAT16 have a fixed size, because they use a specially
    /// reserved space on disk. Other directories can have any size as they are
    /// made of regular clusters.
    fn iterate_fat16<D: BlockDevice, V: EntryVisitor>(
        &self,
        dir_info: &DirectoryInfo,
        fat16_info: &Fat16Info,
        block_cache: &mut BlockCache<D>,
        visitor: &mut V,
    ) -> (result: Result<(), Error<D::Error>>)
        requires
            self.fat_specific_info == FatSpecificInfo::Fat16(*fat16_info),
            old(block_cache).clean(),
            self.visited::<V>(
                old(block_cache).disk(),
                dir_info.cluster,
                old(visitor).state(),
            ) is Some,
        ensures
            self.shows::<D, V>(
                *old(block_cache),
                *final(block_cache),
                self.dir_start(dir_info.cluster),
                old(visitor).state(),
                final(visitor).state(),
                result,
            ),
    {
        let start = if dir_info.cluster.0 == ClusterId::ROOT_DIR {
            self.open_root_region(fat16_info)
        } else {
            self.enter_cluster(dir_info.cluster)
        };
        self.show_entries(block_cache, start, visitor)
    }

    /// Shows every valid entry of the given FAT32 directory to `visitor`.
    ///
    /// All directories on FAT32 have a cluster chain but the root dir starts in
    /// a specified cluster.
    fn iterate_fat32<D: BlockDevice, V: EntryVisitor>(
        &self,
        dir_info: &DirectoryInfo,
        fat32_info: &Fat32Info,
        block_cache: &mut BlockCache<D>,
        visitor: &mut V,
    ) -> (result: Result<(), Error<D::Error>>)
        requires
            self.fat_specific_info == FatSpecificInfo::Fat32(*fat32_info),
            old(block_cache).clean(),
            self.visited::<V>(
                old(block_cache).disk(),
                dir_info.cluster,
                old(visitor).state(),
            ) is Some,
        ensures
            self.shows::<D, V>(
                *old(block_cache),
                *final(block_cache),
                self.dir_start(dir_info.cluster),
                old(visitor).state(),
                final(visitor).state(),
                result,
            ),
    {
        let start = if dir_info.cluster.0 == ClusterId::ROOT_DIR {
            self.enter_cluster(fat32_info.first_root_dir_cluster)
        } else {
            self.enter_cluster(dir_info.cluster)
        };
        self.show_entries(block_cache, start, visitor)
    }
}

} // verus!
