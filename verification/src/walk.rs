//! Walks through a directory: which slots they come by, and what someone who is
//! shown those slots learns.

use crate::block::Disk;
use crate::directory::{end_link, slot_bytes, Cursor, DirectorySlot, Step};
use crate::entry::{slot_entry, slot_is_end, slot_is_valid, ClusterId};
use crate::iterate::{Visit, Watcher};
use crate::table::Link;
use crate::volume::FatVolume;
use vstd::prelude::*;

verus! {

/// A walk through a directory, as far as it has come.
pub struct Walk {
    /// The place that it has come to.
    pub at: Cursor,
    /// The slots that it has come by.
    pub slots: Seq<DirectorySlot>,
    /// The clusters that it has left behind.
    pub clusters: Seq<ClusterId>,
}

/// What someone has learned from a row of slots.
pub struct Told<S> {
    /// What was learned.
    pub state: S,
    /// Was one of the slots the last one to look at?
    pub over: bool,
}

impl FatVolume {
    /// The walk from `start` on after `k` steps, or `None` if it ends before
    /// that or goes out of reach.
    pub open spec fn walked(self, disk: Disk, start: Cursor, k: nat) -> Option<Walk>
        decreases k,
    {
        if k == 0 {
            Some(Walk { at: start, slots: Seq::empty(), clusters: Seq::empty() })
        } else {
            match self.walked(disk, start, (k - 1) as nat) {
                None => None,
                Some(w) => match self.step(disk, w.at) {
                    Step::Slot(slot, _, next) => Some(
                        Walk { at: next, slots: w.slots.push(slot), ..w },
                    ),
                    Step::Enter(next) => Some(
                        Walk { at: next, clusters: w.clusters.push(w.at.cluster->0), ..w },
                    ),
                    _ => None,
                },
            }
        }
    }

    /// Does the walk through a directory end after `k` steps, in reach all the
    /// while?
    pub open spec fn walk_ends(self, disk: Disk, dir: ClusterId, k: nat) -> bool {
        self.walked(disk, self.dir_start(dir), k) matches Some(w) && self.step(disk, w.at) is End
    }

    /// Can a directory be walked through to its end? It can unless its chain
    /// runs in a circle or leads out of reach.
    pub open spec fn walk_in_reach(self, disk: Disk, dir: ClusterId) -> bool {
        self.dir_in_reach(dir) && exists|k: nat| self.walk_ends(disk, dir, k)
    }

    /// Is a directory made of these slots, and is `end` what comes behind them: the
    /// end, unless its chain is broken?
    pub open spec fn is_made_of(
        self,
        disk: Disk,
        dir: ClusterId,
        slots: Seq<DirectorySlot>,
        end: Link,
    ) -> bool {
        self.dir_in_reach(dir) && exists|k: nat|
            {
                let w = self.walked(disk, self.dir_start(dir), k)->0;
                &&& #[trigger] self.walk_ends(disk, dir, k)
                &&& w.slots == slots
                &&& end_link(self.step(disk, w.at)->End_0) == end
            }
    }

    /// What someone who knows `state` learns from one slot. A slot that was never
    /// used is the last one to look at.
    pub open spec fn told_one<W: Watcher>(
        self,
        disk: Disk,
        slot: DirectorySlot,
        state: W::State,
    ) -> Told<W::State> {
        let raw = slot_bytes(disk, slot);
        if slot_is_end(raw) {
            Told { state, over: true }
        } else if !slot_is_valid(raw) {
            Told { state, over: false }
        } else {
            let entry = slot_entry(raw, self.fat_type(), slot.block.0, slot.offset);
            let (learned, enough) = W::shown(state, entry, raw);
            Told { state: learned, over: enough }
        }
    }

    /// What someone who knows `state` learns from a row of slots.
    pub open spec fn told<W: Watcher>(
        self,
        disk: Disk,
        slots: Seq<DirectorySlot>,
        state: W::State,
    ) -> Told<W::State>
        decreases slots.len(),
    {
        if slots.len() == 0 {
            Told { state, over: false }
        } else {
            let before = self.told::<W>(disk, slots.drop_last(), state);
            if before.over {
                before
            } else {
                self.told_one::<W>(disk, slots.last(), before.state)
            }
        }
    }

    /// Learning from two rows is learning from the one and then from the other.
    pub proof fn lemma_told_concat<W: Watcher>(
        self,
        disk: Disk,
        front: Seq<DirectorySlot>,
        back: Seq<DirectorySlot>,
        state: W::State,
    )
        ensures
            ({
                let before = self.told::<W>(disk, front, state);
                self.told::<W>(disk, front + back, state) == if before.over {
                    before
                } else {
                    self.told::<W>(disk, back, before.state)
                }
            }),
        decreases back.len(),
    {
        if back.len() == 0 {
            assert(front + back =~= front);
        } else {
            self.lemma_told_concat::<W>(disk, front, back.drop_last(), state);
            assert((front + back).drop_last() =~= front + back.drop_last());
            assert((front + back).last() == back.last());
        }
    }

    /// Showing the entries of a directory goes on behind the slots that a walk
    /// has come by.
    proof fn lemma_visit_goes_on<W: Watcher>(
        self,
        disk: Disk,
        start: Cursor,
        state: W::State,
        k: nat,
        n: nat,
    )
        requires
            self.walked(disk, start, k) matches Some(w) && !self.told::<W>(
                disk,
                w.slots,
                state,
            ).over,
        ensures
            ({
                let w = self.walked(disk, start, k)->0;
                let told = self.told::<W>(disk, w.slots, state);
                self.visited_within::<W>(disk, start, state, k + n) == self.visited_within::<W>(
                    disk,
                    w.at,
                    told.state,
                    n,
                )
            }),
        decreases k,
    {
        if k > 0 {
            let before = self.walked(disk, start, (k - 1) as nat)->0;
            if let Step::Slot(slot, _, _) = self.step(disk, before.at) {
                assert(before.slots.push(slot).drop_last() =~= before.slots);
            }
            self.lemma_visit_goes_on::<W>(disk, start, state, (k - 1) as nat, n + 1);
        }
    }

    /// Where one of the slots that a walk has come by is the last one to look at,
    /// showing the entries of the directory ends there.
    pub proof fn lemma_visit_is_over<W: Watcher>(
        self,
        disk: Disk,
        start: Cursor,
        state: W::State,
        k: nat,
    )
        requires
            self.walked(disk, start, k) matches Some(w) && self.told::<W>(
                disk,
                w.slots,
                state,
            ).over,
        ensures
            ({
                let w = self.walked(disk, start, k)->0;
                self.visited_from::<W>(disk, start, state) == Some(
                    Visit { state: self.told::<W>(disk, w.slots, state).state, end: Link::End },
                )
            }),
        decreases k,
    {
        let before = self.walked(disk, start, (k - 1) as nat)->0;
        if let Step::Slot(slot, _, _) = self.step(disk, before.at) {
            assert(before.slots.push(slot).drop_last() =~= before.slots);
        }
        if self.told::<W>(disk, before.slots, state).over {
            self.lemma_visit_is_over::<W>(disk, start, state, (k - 1) as nat);
        } else {
            self.lemma_visit_goes_on::<W>(disk, start, state, (k - 1) as nat, 1);
            self.lemma_visited_from::<W>(disk, start, state, k);
        }
    }

    /// Where a walk ends, what was learned by then is what showing the entries of
    /// the directory leads to.
    pub proof fn lemma_visit_to_the_end<W: Watcher>(
        self,
        disk: Disk,
        start: Cursor,
        state: W::State,
        k: nat,
    )
        requires
            self.walked(disk, start, k) matches Some(w) && self.step(disk, w.at) is End,
        ensures
            ({
                let w = self.walked(disk, start, k)->0;
                let told = self.told::<W>(disk, w.slots, state);
                self.visited_from::<W>(disk, start, state) == Some(
                    Visit {
                        state: told.state,
                        end: if told.over {
                            Link::End
                        } else {
                            end_link(self.step(disk, w.at)->End_0)
                        },
                    },
                )
            }),
    {
        let w = self.walked(disk, start, k)->0;
        if self.told::<W>(disk, w.slots, state).over {
            self.lemma_visit_is_over::<W>(disk, start, state, k);
        } else {
            self.lemma_visit_goes_on::<W>(disk, start, state, k, 1);
            self.lemma_visited_from::<W>(disk, start, state, k + 1);
        }
    }
}

/// Whoever looks through a directory learns what its slots tell, one after the
/// other.
pub proof fn law_visit_is_told<W: Watcher>(
    volume: FatVolume,
    disk: Disk,
    dir: ClusterId,
    slots: Seq<DirectorySlot>,
    end: Link,
    state: W::State,
)
    requires
        volume.is_made_of(disk, dir, slots, end),
    ensures
        ({
            let told = volume.told::<W>(disk, slots, state);
            volume.visited::<W>(disk, dir, state) == Some(
                Visit {
                    state: told.state,
                    end: if told.over {
                        Link::End
                    } else {
                        end
                    },
                },
            )
        }),
{
    let k = choose|k: nat|
        {
            let w = volume.walked(disk, volume.dir_start(dir), k)->0;
            &&& #[trigger] volume.walk_ends(disk, dir, k)
            &&& w.slots == slots
            &&& end_link(volume.step(disk, w.at)->End_0) == end
        };
    volume.lemma_visit_to_the_end::<W>(disk, volume.dir_start(dir), state, k);
}

/// A directory that can be walked through to its end can be looked through by
/// anyone, whatever they look for.
pub proof fn law_walk_serves_all<W: Watcher>(
    volume: FatVolume,
    disk: Disk,
    dir: ClusterId,
    state: W::State,
)
    requires
        volume.walk_in_reach(disk, dir),
    ensures
        volume.visited::<W>(disk, dir, state) is Some,
{
    let k = choose|k: nat| volume.walk_ends(disk, dir, k);
    volume.lemma_visit_to_the_end::<W>(disk, volume.dir_start(dir), state, k);
}

} // verus!
