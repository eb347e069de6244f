//! Finding room for an entry in a directory, and making the directory longer
//! where there is none.

use crate::allocation::{Allocation, HintSearch};
use crate::block::{BlockCache, BlockDevice, Disk};
use crate::collections::{clear_slots, no_slots, push_slot, slot_list, slots_of};
use crate::deletion::slots_wf;
use crate::directory::{Cursor, DirEnd, DirectorySlot, Met, Step};
use crate::entry::{slot_is_valid, ClusterId};
use crate::error::Error;
use crate::long_name::MAX_LFN_SLOTS;
use crate::table::Link;
use crate::volume::FatVolume;
use vstd::prelude::*;

verus! {

/// How far the search for free slots has come.
pub struct FreeState {
    /// What is known of the volume.
    pub volume: FatVolume,
    /// What the disk holds.
    pub disk: Disk,
    /// The place in the directory.
    pub at: Cursor,
    /// The free slots right in front of that place.
    pub slots: Seq<DirectorySlot>,
    /// Did the device report an error while a hint was searched for?
    pub troubled: bool,
}

/// How the search for free slots ends.
pub enum FreeOutcome {
    /// With the slots.
    Found(Seq<DirectorySlot>),
    /// There is no room, and none can be made.
    Full,
    /// The chain of the directory is broken.
    Broken(Link),
}

/// What the search for free slots leads to.
pub struct FreeSearch {
    /// What is then known of the volume.
    pub volume: FatVolume,
    /// What the disk then holds.
    pub disk: Disk,
    /// How it ended.
    pub outcome: FreeOutcome,
    /// Did the device report an error while a hint was searched for?
    pub troubled: bool,
}

/// What one step of the search leads to.
pub enum FreeStep {
    /// The search goes on.
    Next(FreeState),
    /// The search ends.
    Done(FreeSearch),
    /// The search leaves the numbers that fit.
    OutOfReach,
}

/// How the search for a hint goes in the first of a row of steps. Where the row
/// says nothing, the device reports no error.
pub open spec fn first_search(searches: Seq<HintSearch>) -> HintSearch {
    if searches.len() == 0 {
        HintSearch::Done
    } else {
        searches[0]
    }
}

/// How the searches for hints go in the steps after the first one.
pub open spec fn later_searches(searches: Seq<HintSearch>) -> Seq<HintSearch> {
    if searches.len() == 0 {
        searches
    } else {
        searches.drop_first()
    }
}

/// Does the device report no error in any of these searches?
pub open spec fn all_done(searches: Seq<HintSearch>) -> bool {
    forall|i: int| 0 <= i < searches.len() ==> #[trigger] searches[i] is Done
}

impl FreeState {
    /// The search at the beginning of a directory.
    pub open spec fn start(volume: FatVolume, disk: Disk, dir: ClusterId) -> FreeState {
        FreeState {
            volume,
            disk,
            at: volume.dir_start(dir),
            slots: Seq::empty(),
            troubled: false,
        }
    }

    /// The search ends here.
    pub open spec fn ends(self, outcome: FreeOutcome) -> FreeStep {
        FreeStep::Done(
            FreeSearch {
                volume: self.volume,
                disk: self.disk,
                outcome,
                troubled: self.troubled,
            },
        )
    }

    /// One step of the search for `needed` free slots in a row. At the end of a
    /// chain of clusters, a further cluster is allocated, and `search` says how
    /// the search for a hint goes.
    #[verifier::opaque]
    pub open spec fn step(self, needed: nat, search: HintSearch) -> FreeStep {
        match self.volume.step(self.disk, self.at) {
            Step::Slot(slot, raw, next) => if slot_is_valid(raw) {
                FreeStep::Next(FreeState { at: next, slots: Seq::empty(), ..self })
            } else if self.slots.len() + 1 == needed {
                self.ends(FreeOutcome::Found(self.slots.push(slot)))
            } else {
                FreeStep::Next(FreeState { at: next, slots: self.slots.push(slot), ..self })
            },
            Step::Enter(next) => FreeStep::Next(FreeState { at: next, ..self }),
            Step::End(DirEnd::Region) => self.ends(FreeOutcome::Full),
            Step::End(DirEnd::Chain(c, Link::End)) => if self.volume.allocation_in_reach(
                self.disk,
                Some(c),
                true,
            ) {
                match self.volume.allocation(self.disk, Some(c), true, search) {
                    Some(a) => FreeStep::Next(
                        FreeState {
                            volume: a.volume,
                            disk: a.disk,
                            at: a.volume.cluster_start(a.cluster),
                            slots: self.slots,
                            troubled: self.troubled || search !is Done,
                        },
                    ),
                    None => self.ends(FreeOutcome::Full),
                }
            } else {
                FreeStep::OutOfReach
            },
            Step::End(DirEnd::Chain(_, link)) => self.ends(FreeOutcome::Broken(link)),
            Step::OutOfReach => FreeStep::OutOfReach,
        }
    }

    /// What the search for `needed` free slots leads to, if it ends within `n`
    /// steps and stays in reach. The searches for hints go as `searches` says,
    /// step by step.
    pub open spec fn within(self, needed: nat, searches: Seq<HintSearch>, n: nat) -> Option<
        FreeSearch,
    >
        decreases n,
    {
        if n == 0 {
            None
        } else {
            match self.step(needed, first_search(searches)) {
                FreeStep::Next(state) => state.within(
                    needed,
                    later_searches(searches),
                    (n - 1) as nat,
                ),
                FreeStep::Done(search) => Some(search),
                FreeStep::OutOfReach => None,
            }
        }
    }

    /// How far the search is after as many steps as `searches` has elements.
    pub open spec fn after(self, needed: nat, searches: Seq<HintSearch>) -> FreeState
        decreases searches.len(),
    {
        if searches.len() == 0 {
            self
        } else {
            let before = self.after(needed, searches.drop_last());
            match before.step(needed, searches.last()) {
                FreeStep::Next(state) => state,
                _ => before,
            }
        }
    }

    /// A step of the search that the device error `error` put an end to.
    pub open spec fn step_fails<D: BlockDevice>(
        self,
        before: BlockCache<D>,
        error: D::Error,
        after: BlockCache<D>,
        volume: FatVolume,
    ) -> bool {
        ||| {
            &&& after.failed_with(&before, error)
            &&& after.disk() == self.disk
            &&& volume == self.volume
        }
        ||| {
            &&& self.volume.step(self.disk, self.at) matches Step::End(DirEnd::Chain(c, Link::End))
            &&& self.volume.allocation_fails(before, Some(c), true, error, after, volume)
        }
    }

    /// Is `here` where the search is after the steps `done`, and does it end
    /// within `fuel` more steps with what `self` ends with within `bound`,
    /// however the searches for hints go from here on?
    #[verifier::opaque]
    spec fn leads_to(
        self,
        needed: nat,
        bound: nat,
        done: Seq<HintSearch>,
        here: FreeState,
        fuel: nat,
    ) -> bool {
        &&& self.after(needed, done) == here
        &&& forall|rest: Seq<HintSearch>|
            {
                &&& here.within(needed, rest, fuel) is Some
                &&& here.within(needed, rest, fuel) == #[trigger] self.within(
                    needed,
                    done + rest,
                    bound,
                )
            }
    }

    /// The search leads to where it starts.
    proof fn lemma_leads_to_start(self, needed: nat, bound: nat)
        requires
            forall|searches: Seq<HintSearch>|
                (#[trigger] self.within(needed, searches, bound)) is Some,
        ensures
            self.leads_to(needed, bound, Seq::empty(), self, bound),
    {
        reveal(FreeState::leads_to);
        assert forall|rest: Seq<HintSearch>|
            {
                &&& self.within(needed, rest, bound) is Some
                &&& self.within(needed, rest, bound) == #[trigger] self.within(
                    needed,
                    Seq::empty() + rest,
                    bound,
                )
            } by {
            assert(Seq::<HintSearch>::empty() + rest =~= rest);
        }
    }

    /// The search leads from one step to the next.
    proof fn lemma_leads_to_next(
        self,
        needed: nat,
        bound: nat,
        done: Seq<HintSearch>,
        here: FreeState,
        fuel: nat,
        search: HintSearch,
        next: FreeState,
    )
        requires
            self.leads_to(needed, bound, done, here, fuel),
            here.step(needed, search) == FreeStep::Next(next),
        ensures
            fuel > 0,
            self.leads_to(needed, bound, done.push(search), next, (fuel - 1) as nat),
    {
        reveal(FreeState::leads_to);
        assert(self.within(needed, done + Seq::<HintSearch>::empty(), bound) == here.within(
            needed,
            Seq::empty(),
            fuel,
        ));
        assert(done.push(search).drop_last() =~= done);
        assert forall|rest: Seq<HintSearch>|
            {
                &&& next.within(needed, rest, (fuel - 1) as nat) is Some
                &&& next.within(needed, rest, (fuel - 1) as nat) == #[trigger] self.within(
                    needed,
                    done.push(search) + rest,
                    bound,
                )
            } by {
            let more = seq![search] + rest;
            assert(done.push(search) + rest =~= done + more);
            assert(more.drop_first() =~= rest);
            assert(self.within(needed, done + more, bound) == here.within(needed, more, fuel));
        }
    }

    /// Where the search ends at the next step, that is what it leads to.
    proof fn lemma_leads_to_end(
        self,
        needed: nat,
        bound: nat,
        done: Seq<HintSearch>,
        here: FreeState,
        fuel: nat,
        search: FreeSearch,
    )
        requires
            self.leads_to(needed, bound, done, here, fuel),
            here.step(needed, HintSearch::Done) == FreeStep::Done(search),
        ensures
            self.within(needed, done, bound) == Some(search),
            all_done(done) ==> self.within(needed, Seq::empty(), bound) == Some(search),
    {
        reveal(FreeState::leads_to);
        let rest = Seq::<HintSearch>::empty();
        assert(self.within(needed, done + rest, bound) == here.within(needed, rest, fuel));
        assert(done + rest =~= done);
        if all_done(done) {
            self.lemma_all_done(needed, done, bound);
        }
    }

    /// To say that the device reports no error is to say nothing.
    proof fn lemma_all_done(self, needed: nat, searches: Seq<HintSearch>, n: nat)
        requires
            all_done(searches),
        ensures
            self.within(needed, searches, n) == self.within(needed, Seq::empty(), n),
        decreases n,
    {
        if n > 0 {
            if let FreeStep::Next(next) = self.step(needed, HintSearch::Done) {
                next.lemma_all_done(needed, later_searches(searches), (n - 1) as nat);
            }
        }
    }

    /// Where the search is, the next step is in reach.
    proof fn lemma_leads_to_in_reach(
        self,
        needed: nat,
        bound: nat,
        done: Seq<HintSearch>,
        here: FreeState,
        fuel: nat,
    )
        requires
            self.leads_to(needed, bound, done, here, fuel),
        ensures
            self.after(needed, done) == here,
            forall|search: HintSearch| here.step(needed, search) !is OutOfReach,
    {
        reveal(FreeState::leads_to);
        assert forall|search: HintSearch| here.step(needed, search) !is OutOfReach by {
            let rest = seq![search];
            assert(self.within(needed, done + rest, bound) == here.within(needed, rest, fuel));
            assert(first_search(rest) == search);
        }
    }
}

impl FatVolume {
    /// Does the search for `needed` free slots in a directory end within `n`
    /// steps and stay in reach, however the searches for hints go?
    pub open spec fn free_slots_bounded(
        self,
        disk: Disk,
        dir: ClusterId,
        needed: nat,
        n: nat,
    ) -> bool {
        forall|searches: Seq<HintSearch>|
            (#[trigger] FreeState::start(self, disk, dir).within(needed, searches, n)) is Some
    }

    /// Does the search for `needed` free slots in a directory come to an end,
    /// and stay in reach?
    pub open spec fn free_slots_in_reach(self, disk: Disk, dir: ClusterId, needed: nat) -> bool {
        self.dir_in_reach(dir) && exists|n: nat| self.free_slots_bounded(disk, dir, needed, n)
    }

    /// What the search for `needed` free slots in a directory leads to.
    pub open spec fn free_slots(
        self,
        disk: Disk,
        dir: ClusterId,
        needed: nat,
        searches: Seq<HintSearch>,
    ) -> FreeSearch {
        FreeState::start(self, disk, dir).within(
            needed,
            searches,
            choose|n: nat| self.free_slots_bounded(disk, dir, needed, n),
        )->0
    }

    /// A search for free slots that the device error `error` put an end to. It
    /// came as far as `here` before that; any error before that one struck in a
    /// search for a hint.
    pub open spec fn free_slots_fail<D: BlockDevice>(
        self,
        before: BlockCache<D>,
        dir: ClusterId,
        needed: nat,
        error: D::Error,
        after: BlockCache<D>,
        volume: FatVolume,
    ) -> bool {
        exists|searches: Seq<HintSearch>, here: BlockCache<D>|
            {
                let state = #[trigger] FreeState::start(self, before.disk(), dir).after(
                    needed,
                    searches,
                );
                &&& #[trigger] here.at_or_after(&before)
                &&& here.untroubled(&before) <==> !state.troubled
                &&& here.disk() == state.disk
                &&& state.step_fails(here, error, after, volume)
            }
    }

    /// Take one step of the search, which was `troubled` before or not. The
    /// outcome is `true` if that was the last step.
    fn step_to_free_slots<D: BlockDevice>(
        &mut self,
        block_cache: &mut BlockCache<D>,
        at: &mut Cursor,
        slots: &mut heapless::Vec<DirectorySlot, 21>,
        needed: usize,
        Ghost(troubled): Ghost<bool>,
    ) -> (result: Result<bool, Error<D::Error>>)
        requires
            old(block_cache).clean(),
            old(at).wf(),
            slots_wf(slot_list(*old(slots))),
            slot_list(*old(slots)).len() < needed <= MAX_LFN_SLOTS,
            forall|search: HintSearch|
                (FreeState {
                    volume: *old(self),
                    disk: old(block_cache).disk(),
                    at: *old(at),
                    slots: slot_list(*old(slots)),
                    troubled,
                }).step(needed as nat, search) !is OutOfReach,
        ensures
            final(self).same_layout(*old(self)),
            final(block_cache).clean(),
            final(block_cache).at_or_after(old(block_cache)),
            final(at).wf(),
            slots_wf(slot_list(*final(slots))),
            ({
                let here = FreeState {
                    volume: *old(self),
                    disk: old(block_cache).disk(),
                    at: *old(at),
                    slots: slot_list(*old(slots)),
                    troubled,
                };
                let search = FreeSearch {
                    volume: *final(self),
                    disk: final(block_cache).disk(),
                    outcome: match result {
                        Ok(_) => FreeOutcome::Found(slot_list(*final(slots))),
                        Err(Error::BadCluster) => FreeOutcome::Broken(Link::Bad),
                        Err(Error::UnterminatedFatChain) => FreeOutcome::Broken(Link::Free),
                        Err(_) => FreeOutcome::Full,
                    },
                    troubled,
                };
                match result {
                    Ok(false) => {
                        &&& slot_list(*final(slots)).len() < needed
                        &&& exists|search: HintSearch|
                            {
                                &&& final(block_cache).untroubled(old(block_cache))
                                    <==> search is Done
                                &&& #[trigger] here.step(needed as nat, search) == FreeStep::Next(
                                    (FreeState {
                                        volume: *final(self),
                                        disk: final(block_cache).disk(),
                                        at: *final(at),
                                        slots: slot_list(*final(slots)),
                                        troubled: troubled || search !is Done,
                                    }),
                                )
                            }
                    },
                    Ok(true) => {
                        &&& final(block_cache).untroubled(old(block_cache))
                        &&& here.step(needed as nat, HintSearch::Done) == FreeStep::Done(search)
                        &&& slot_list(*final(slots)).len() == needed
                    },
                    Err(Error::DeviceError(e)) => {
                        &&& final(block_cache).faults() > old(block_cache).faults()
                        &&& here.step_fails(*old(block_cache), e, *final(block_cache), *final(self))
                    },
                    Err(e) => {
                        &&& e is NotEnoughSpace || e is BadCluster || e is UnterminatedFatChain
                        &&& final(block_cache).untroubled(old(block_cache))
                        &&& here.step(needed as nat, HintSearch::Done) == FreeStep::Done(search)
                    },
                }
            }),
    {
        let ghost here = FreeState {
            volume: *self,
            disk: block_cache.disk(),
            at: *at,
            slots: slot_list(*slots),
            troubled,
        };
        proof {
            reveal(FreeState::step);
            assert(here.step(needed as nat, HintSearch::Done) !is OutOfReach);
        }
        let met = match self.advance(block_cache, at) {
            Ok(met) => met,
            Err(e) => return Err(e),
        };
        match met {
            Met::Slot(slot, entry) => {
                if entry.is_valid() {
                    clear_slots(slots);
                } else {
                    let _ = push_slot(slots, slot);
                    if slots_of(slots).len() == needed {
                        return Ok(true);
                    }
                }
            },
            Met::Cluster => {},
            Met::EndOfRegion => return Err(Error::NotEnoughSpace),
            Met::EndOfChain(last) => {
                match self.alloc_cluster(block_cache, Some(last), true) {
                    Ok(cluster) => {
                        *at = self.enter_cluster(cluster);
                        let ghost search = choose|search: HintSearch|
                            (block_cache.untroubled(old(block_cache)) <==> search
                                == HintSearch::Done) && #[trigger] here.volume.allocation(
                                here.disk,
                                Some(last),
                                true,
                                search,
                            ) == Some(
                                (Allocation { cluster, volume: *self, disk: block_cache.disk() }),
                            );
                        assert(here.step(needed as nat, search) is Next);
                    },
                    Err(e) => return Err(e),
                }
            },
        }
        Ok(false)
    }

    /// Find `slots_needed` free slots in a row, and make the directory longer
    /// if that is what it takes.
    pub(crate) fn find_free_directory_slots<D: BlockDevice>(
        &mut self,
        block_cache: &mut BlockCache<D>,
        dir_cluster: ClusterId,
        slots_needed: usize,
    ) -> (result: Result<heapless::Vec<DirectorySlot, 21>, Error<D::Error>>)
        requires
            old(block_cache).clean(),
            1 <= slots_needed <= MAX_LFN_SLOTS ==> old(self).free_slots_in_reach(
                old(block_cache).disk(),
                dir_cluster,
                slots_needed as nat,
            ),
        ensures
            final(self).same_layout(*old(self)),
            final(block_cache).clean(),
            final(block_cache).at_or_after(old(block_cache)),
            ({
                let disk = old(block_cache).disk();
                let found = FreeSearch {
                    volume: *final(self),
                    disk: final(block_cache).disk(),
                    outcome: match result {
                        Ok(list) => FreeOutcome::Found(slot_list(list)),
                        Err(Error::BadCluster) => FreeOutcome::Broken(Link::Bad),
                        Err(Error::UnterminatedFatChain) => FreeOutcome::Broken(Link::Free),
                        Err(_) => FreeOutcome::Full,
                    },
                    troubled: !final(block_cache).untroubled(old(block_cache)),
                };
                if !(1 <= slots_needed <= MAX_LFN_SLOTS) {
                    &&& result matches Err(Error::NotEnoughSpace)
                    &&& final(block_cache).untroubled(old(block_cache))
                    &&& *final(self) == *old(self)
                    &&& final(block_cache).disk() == disk
                } else {
                    match result {
                        Err(Error::DeviceError(e)) => {
                            &&& final(block_cache).faults() > old(block_cache).faults()
                            &&& old(self).free_slots_fail(
                                *old(block_cache),
                                dir_cluster,
                                slots_needed as nat,
                                e,
                                *final(block_cache),
                                *final(self),
                            )
                        },
                        _ => {
                            &&& result matches Ok(list) ==> slot_list(list).len() == slots_needed
                                && slots_wf(slot_list(list))
                            &&& result matches Err(e) ==> e is NotEnoughSpace || e is BadCluster
                                || e is UnterminatedFatChain
                            &&& exists|searches: Seq<HintSearch>|
                                {
                                    &&& final(block_cache).untroubled(old(block_cache))
                                        ==> searches == Seq::<HintSearch>::empty()
                                    &&& #[trigger] old(self).free_slots(
                                        disk,
                                        dir_cluster,
                                        slots_needed as nat,
                                        searches,
                                    ) == found
                                }
                        },
                    }
                }
            }),
    {
        if slots_needed == 0 || slots_needed > MAX_LFN_SLOTS {
            return Err(Error::NotEnoughSpace);
        }
        let ghost disk = block_cache.disk();
        let ghost volume = *self;
        let ghost needed = slots_needed as nat;
        let ghost start = FreeState::start(volume, disk, dir_cluster);
        let ghost bound = choose|n: nat| volume.free_slots_bounded(disk, dir_cluster, needed, n);
        let ghost mut fuel = bound;
        let ghost mut done: Seq<HintSearch> = Seq::empty();
        let mut at = self.open_cursor(dir_cluster);
        let mut slots = no_slots();
        proof {
            start.lemma_leads_to_start(needed, bound);
        }
        loop
            invariant
                block_cache.clean(),
                self.same_layout(volume),
                block_cache.at_or_after(old(block_cache)),
                block_cache.untroubled(old(block_cache)) ==> all_done(done),
                disk == old(block_cache).disk(),
                volume == *old(self),
                needed == slots_needed,
                1 <= slots_needed <= MAX_LFN_SLOTS,
                start == FreeState::start(volume, disk, dir_cluster),
                bound == (choose|n: nat|
                    volume.free_slots_bounded(disk, dir_cluster, needed, n)),
                at.wf(),
                slot_list(slots).len() < needed,
                slots_wf(slot_list(slots)),
                start.leads_to(
                    needed,
                    bound,
                    done,
                    (FreeState {
                        volume: *self,
                        disk: block_cache.disk(),
                        at,
                        slots: slot_list(slots),
                        troubled: !block_cache.untroubled(old(block_cache)),
                    }),
                    fuel,
                ),
            decreases fuel,
        {
            let ghost troubled = !block_cache.untroubled(old(block_cache));
            let ghost here = FreeState {
                volume: *self,
                disk: block_cache.disk(),
                at,
                slots: slot_list(slots),
                troubled,
            };
            let ghost before = *block_cache;
            proof {
                start.lemma_leads_to_in_reach(needed, bound, done, here, fuel);
            }
            let outcome = self.step_to_free_slots(
                block_cache,
                &mut at,
                &mut slots,
                slots_needed,
                Ghost(troubled),
            );
            proof {
                if let FreeStep::Done(search) = here.step(needed, HintSearch::Done) {
                    start.lemma_leads_to_end(needed, bound, done, here, fuel, search);
                    assert(volume.free_slots(disk, dir_cluster, needed, done) == search);
                    assert(all_done(done) ==> volume.free_slots(
                        disk,
                        dir_cluster,
                        needed,
                        Seq::empty(),
                    ) == search);
                }
            }
            match outcome {
                Ok(true) => return Ok(slots),
                Ok(false) => {},
                Err(e) => return Err(e),
            }
            proof {
                let next = FreeState {
                    volume: *self,
                    disk: block_cache.disk(),
                    at,
                    slots: slot_list(slots),
                    troubled: !block_cache.untroubled(old(block_cache)),
                };
                let search = choose|search: HintSearch|
                    (block_cache.untroubled(&before) <==> search is Done) && #[trigger] here.step(
                        needed,
                        search,
                    ) == FreeStep::Next(next);
                start.lemma_leads_to_next(needed, bound, done, here, fuel, search, next);
                done = done.push(search);
                fuel = (fuel - 1) as nat;
            }
        }
    }
}

} // verus!
