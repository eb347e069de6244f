//! The slots that a new entry is given stand one behind the other in its
//! directory, and were free.

use crate::allocation::HintSearch;
use crate::block::Disk;
use crate::directory::{end_link, slot_bytes, slot_place, Cursor, DirEnd, DirectorySlot, Step};
use crate::entry::{slot_is_end, slot_is_valid, ClusterId};
use crate::free_slots::{first_search, later_searches, FreeState, FreeStep};
use crate::laws::{
    distinct_slots, law_allocated_was_free, law_zeroed, slot_aligned, whole_blocks,
};
use crate::table::Link;
use crate::volume::FatVolume;
use vstd::prelude::*;

verus! {

impl FatVolume {
    /// Is this a place in the region of the root directory, or in a cluster that
    /// is in use?
    pub open spec fn is_place(self, disk: Disk, at: Cursor) -> bool {
        match at.cluster {
            Some(c) => self.in_use(disk, c) && at == (Cursor {
                slot: at.slot,
                ..self.cluster_start(c)
            }),
            None => self.fat_specific_info is Fat16 && at == (Cursor {
                slot: at.slot,
                ..self.dir_start(ClusterId(ClusterId::ROOT_DIR))
            }),
        }
    }

    /// Do the slots `slots` stand one behind the other in a directory, right
    /// behind the slots `front`, with which it begins?
    pub open spec fn follows(
        self,
        disk: Disk,
        dir: ClusterId,
        front: Seq<DirectorySlot>,
        slots: Seq<DirectorySlot>,
    ) -> bool {
        exists|k: nat|
            (#[trigger] self.walked(disk, self.dir_start(dir), k)) matches Some(w) && w.slots
                == front + slots
    }

    /// What is known of the free clusters does not matter to a walk.
    pub proof fn lemma_same_step(self, other: FatVolume, disk: Disk, at: Cursor)
        requires
            self.same_layout(other),
        ensures
            self.step(disk, at) == other.step(disk, at),
    {
        if let Some(c) = at.cluster {
            assert(self.entry_position(c) == other.entry_position(c));
            assert(self.link(disk, c) == other.link(disk, c));
            if let Link::Next(next) = self.link(disk, c) {
                assert(self.block_of(next) == other.block_of(next));
            }
        }
    }

    /// A walk goes the same way on a disk where the clusters that it has left
    /// behind lead where they led.
    pub proof fn lemma_same_walk(self, disk: Disk, other: Disk, start: Cursor, k: nat)
        requires
            self.walked(disk, start, k) matches Some(w) && forall|i: int|
                0 <= i < w.clusters.len() ==> self.link(other, #[trigger] w.clusters[i])
                    == self.link(disk, w.clusters[i]),
        ensures
            self.walked(other, start, k) == self.walked(disk, start, k),
        decreases k,
    {
        if k > 0 {
            let w = self.walked(disk, start, k)->0;
            let before = self.walked(disk, start, (k - 1) as nat)->0;
            assert forall|i: int| 0 <= i < before.clusters.len() implies self.link(
                other,
                #[trigger] before.clusters[i],
            ) == self.link(disk, before.clusters[i]) by {
                assert(w.clusters[i] == before.clusters[i]);
            }
            self.lemma_same_walk(disk, other, start, (k - 1) as nat);
            if let Step::Enter(_) = self.step(disk, before.at) {
                assert(w.clusters.last() == before.at.cluster->0);
            }
        }
    }

    /// A walk through a directory stays in the clusters that are in use.
    pub proof fn lemma_walk_in_use(self, disk: Disk, dir: ClusterId, k: nat)
        requires
            self.laid_out(),
            self.sound_table(disk),
            self.is_directory_start(disk, dir),
            self.walked(disk, self.dir_start(dir), k) is Some,
        ensures
            ({
                let w = self.walked(disk, self.dir_start(dir), k)->0;
                &&& self.is_place(disk, w.at)
                &&& forall|i: int|
                    0 <= i < w.clusters.len() ==> self.in_use(disk, #[trigger] w.clusters[i])
            }),
        decreases k,
    {
        if k == 0 {
            if !self.is_fixed_root(dir) {
                self.lemma_cluster_place(self.resolved(dir));
            }
        } else {
            self.lemma_walk_in_use(disk, dir, (k - 1) as nat);
            let before = self.walked(disk, self.dir_start(dir), (k - 1) as nat)->0;
            if let Step::Enter(_) = self.step(disk, before.at) {
                let c = before.at.cluster->0;
                assert(self.in_use(disk, c));
                let to = self.link(disk, c)->Next_0;
                assert(self.in_use(disk, to));
            }
        }
    }

    /// Does the walk from `start` on come to an end?
    spec fn stops(self, disk: Disk, start: Cursor) -> bool {
        exists|k: nat|
            (#[trigger] self.walked(disk, start, k)) matches Some(w) && self.step(disk, w.at) is End
    }

    /// A walk that has come to the beginning of the last cluster of a chain comes
    /// to an end with it.
    proof fn lemma_last_cluster(self, disk: Disk, start: Cursor, k: nat, c: ClusterId, i: nat)
        requires
            self.laid_out(),
            self.in_volume(c),
            self.link(disk, c) == Link::End,
            self.walked(disk, start, k) matches Some(w) && w.at == self.cluster_start(c),
            i <= self.blocks_per_cluster * 16,
        ensures
            self.walked(disk, start, k + i) matches Some(w) && w.at == (Cursor {
                slot: i as u32,
                ..self.cluster_start(c)
            }),
            i == self.blocks_per_cluster * 16 ==> self.stops(disk, start),
        decreases i,
    {
        self.lemma_entry_place(c);
        if i > 0 {
            self.lemma_last_cluster(disk, start, k, c, (i - 1) as nat);
        }
        if i == self.blocks_per_cluster * 16 {
            let w = self.walked(disk, start, k + i)->0;
            assert(self.step(disk, w.at) is End);
        }
    }

    /// A slot in a directory is one of those that hold data, and stands where
    /// slots can stand.
    proof fn lemma_slot_at(self, disk: Disk, at: Cursor)
        requires
            self.laid_out(),
            self.is_place(disk, at),
            at.slot < at.blocks * 16,
        ensures
            ({
                let slot = slot_place(at.first_block, at.slot);
                &&& slot_aligned(slot)
                &&& self.holds_data(disk, slot.block.0 as int)
            }),
    {
        let slot = slot_place(at.first_block, at.slot);
        match at.cluster {
            Some(c) => {
                self.lemma_cluster_place(c);
                assert(self.in_use(disk, c));
                assert(self.block_of(c) <= slot.block.0 < self.block_of(c)
                    + self.blocks_per_cluster);
            },
            None => {
                assert(at.first_block.0 == self.lba_start.0 + self.behind_tables());
                assert(at.blocks == self.root_blocks());
            },
        }
    }
}

impl FreeState {
    /// Is the search on a walk through the directory of `volume` that begins at
    /// `start`, after `k` steps?
    spec fn on_walk(self, volume: FatVolume, start: Cursor, k: nat) -> bool {
        &&& self.volume.same_layout(volume)
        &&& whole_blocks(self.disk)
        &&& volume.sound_table(self.disk)
        &&& volume.is_place(self.disk, self.at)
        &&& volume.stops(self.disk, start)
        &&& volume.walked(self.disk, start, k) matches Some(w) && {
            &&& w.at == self.at
            &&& self.slots.len() <= w.slots.len()
            &&& self.slots == w.slots.skip(w.slots.len() - self.slots.len())
            &&& forall|i: int|
                0 <= i < w.clusters.len() ==> volume.in_use(self.disk, #[trigger] w.clusters[i])
                    && volume.link(self.disk, w.clusters[i]) is Next
            &&& forall|i: int|
                0 <= i < self.slots.len() ==> {
                    &&& slot_aligned(#[trigger] self.slots[i])
                    &&& volume.holds_data(self.disk, self.slots[i].block.0 as int)
                    &&& !slot_is_valid(slot_bytes(self.disk, self.slots[i]))
                }
        }
    }

    /// What is in use before a step is in use after it, and holds the same.
    spec fn keeps(volume: FatVolume, before: Disk, after: Disk) -> bool {
        &&& forall|c: ClusterId| #[trigger] volume.in_use(before, c) ==> volume.in_use(after, c)
        &&& forall|block: u32|
            volume.holds_data(before, block as int) ==> #[trigger] after[block] == before[block]
    }

    /// What holds data goes on holding data.
    proof fn lemma_keeps(volume: FatVolume, before: Disk, after: Disk, block: int)
        requires
            FreeState::keeps(volume, before, after),
            volume.holds_data(before, block),
        ensures
            volume.holds_data(after, block),
    {
        if !(volume.lba_start.0 + volume.behind_tables() <= block < volume.lba_start.0
            + volume.first_data_block.0) {
            let c = choose|c: ClusterId| #[trigger]
                volume.in_use(before, c) && volume.block_of(c) <= block < volume.block_of(c)
                    + volume.blocks_per_cluster;
            assert(volume.in_use(after, c));
        }
    }

    /// One step of the search is one step of the walk.
    proof fn lemma_step_on_walk(
        self,
        volume: FatVolume,
        start: Cursor,
        k: nat,
        needed: nat,
        search: HintSearch,
        next: FreeState,
    )
        requires
            volume.laid_out(),
            self.on_walk(volume, start, k),
            self.step(needed, search) == FreeStep::Next(next),
        ensures
            next.on_walk(volume, start, k + 1),
            FreeState::keeps(volume, self.disk, next.disk),
    {
        reveal(FreeState::step);
        self.volume.lemma_same_step(volume, self.disk, self.at);
        let w = volume.walked(self.disk, start, k)->0;
        match volume.step(self.disk, self.at) {
            Step::Slot(slot, raw, place) => {
                volume.lemma_slot_at(self.disk, self.at);
                let longer = w.slots.push(slot);
                if slot_is_valid(raw) {
                    assert(longer.skip(longer.len() as int) =~= Seq::empty());
                } else {
                    assert(longer.skip(longer.len() - next.slots.len()) =~= next.slots);
                }
            },
            Step::Enter(place) => {
                let c = self.at.cluster->0;
                assert(volume.in_use(self.disk, c));
                let to = volume.link(self.disk, c)->Next_0;
                assert(volume.in_use(self.disk, to));
            },
            Step::End(DirEnd::Chain(c, Link::End)) => {
                self.lemma_grows_on_walk(volume, start, k, needed, search, next);
            },
            _ => {},
        }
    }

    /// Making the directory longer is one step of the walk, too.
    proof fn lemma_grows_on_walk(
        self,
        volume: FatVolume,
        start: Cursor,
        k: nat,
        needed: nat,
        search: HintSearch,
        next: FreeState,
    )
        requires
            volume.laid_out(),
            self.on_walk(volume, start, k),
            self.step(needed, search) == FreeStep::Next(next),
            volume.step(self.disk, self.at) matches Step::End(DirEnd::Chain(_, Link::End)),
        ensures
            next.on_walk(volume, start, k + 1),
            FreeState::keeps(volume, self.disk, next.disk),
    {
        reveal(FreeState::step);
        self.volume.lemma_same_step(volume, self.disk, self.at);
        let w = volume.walked(self.disk, start, k)->0;
        let c = self.at.cluster->0;
        let a = self.volume.allocation(self.disk, Some(c), true, search)->0;
        let new = a.cluster;
        law_allocated_was_free(self.volume, self.disk, Some(c), true, search);
        assert(self.volume.entry(self.disk, new) == volume.entry(self.disk, new));
        assert(volume.in_volume(new));
        assert(volume.in_use(self.disk, c));
        volume.lemma_growth(self.disk, c, new);
        assert(self.volume.with_claim(self.disk, Some(c), new) == volume.with_claim(
            self.disk,
            Some(c),
            new,
        ));
        assert(self.volume.block_of(new) == volume.block_of(new));
        assert forall|i: int| 0 <= i < w.clusters.len() implies volume.link(
            next.disk,
            #[trigger] w.clusters[i],
        ) == volume.link(self.disk, w.clusters[i]) by {
            assert(volume.in_use(self.disk, w.clusters[i]));
        }
        volume.lemma_same_walk(self.disk, next.disk, start, k);
        volume.lemma_cluster_place(new);
        assert(volume.step(next.disk, self.at) == Step::Enter(volume.cluster_start(new)));
        assert(next.at == volume.cluster_start(new));
        volume.lemma_last_cluster(
            next.disk,
            start,
            k + 1,
            new,
            (volume.blocks_per_cluster * 16) as nat,
        );
        assert forall|i: int| 0 <= i < next.slots.len() implies {
            &&& slot_aligned(#[trigger] next.slots[i])
            &&& volume.holds_data(next.disk, next.slots[i].block.0 as int)
            &&& !slot_is_valid(slot_bytes(next.disk, next.slots[i]))
        } by {
            FreeState::lemma_keeps(
                volume,
                self.disk,
                next.disk,
                self.slots[i].block.0 as int,
            );
        }
        let longer = w.clusters.push(c);
        assert forall|i: int| 0 <= i < longer.len() implies volume.in_use(
            next.disk,
            #[trigger] longer[i],
        ) && volume.link(next.disk, longer[i]) is Next by {
            if i < w.clusters.len() {
                assert(longer[i] == w.clusters[i]);
                assert(volume.in_use(self.disk, w.clusters[i]));
            }
        }
    }

    /// A search that ends with slots has come by them on a walk.
    #[verifier::rlimit(40)]
    proof fn lemma_found_on_walk(
        self,
        volume: FatVolume,
        start: Cursor,
        k: nat,
        needed: nat,
        searches: Seq<HintSearch>,
        n: nat,
    ) -> (end: nat)
        requires
            volume.laid_out(),
            self.on_walk(volume, start, k),
            self.slots.len() < needed,
            self.within(needed, searches, n) matches Some(search) && search.outcome is Found,
        ensures
            ({
                let search = self.within(needed, searches, n)->0;
                let slots = search.outcome->Found_0;
                &&& FreeState::keeps(volume, self.disk, search.disk)
                &&& slots.len() == needed
                &&& (FreeState {
                    troubled: search.troubled,
                    volume: search.volume,
                    disk: search.disk,
                    at: (volume.walked(search.disk, start, end)->0).at,
                    slots,
                }).on_walk(volume, start, end)
            }),
        decreases n,
    {
        let search = self.within(needed, searches, n)->0;
        match self.step(needed, first_search(searches)) {
            FreeStep::Next(next) => {
                self.lemma_step_on_walk(volume, start, k, needed, first_search(searches), next);
                assert(next.slots.len() < needed) by {
                    reveal(FreeState::step);
                }
                let end = next.lemma_found_on_walk(
                    volume,
                    start,
                    k + 1,
                    needed,
                    later_searches(searches),
                    (n - 1) as nat,
                );
                assert forall|block: u32|
                    volume.holds_data(self.disk, block as int) implies #[trigger] search.disk[block]
                    == self.disk[block] by {
                    FreeState::lemma_keeps(volume, self.disk, next.disk, block as int);
                    assert(next.disk[block] == self.disk[block]);
                }
                end
            },
            _ => {
                reveal(FreeState::step);
                self.volume.lemma_same_step(volume, self.disk, self.at);
                let w = volume.walked(self.disk, start, k)->0;
                let slots = search.outcome->Found_0;
                volume.lemma_slot_at(self.disk, self.at);
                let longer = w.slots.push(slots.last());
                assert(longer.skip(longer.len() - slots.len()) =~= slots);
                k + 1
            },
        }
    }
}

/// The slots that a new entry is given stand one behind the other in the
/// directory, which may have been made longer for that; each of them is free,
/// and none of them comes twice. The volume stays sound, the directory can still
/// be walked through to its end, and no block that was in use is changed by
/// looking for them.
pub proof fn law_found_slots(
    volume: FatVolume,
    disk: Disk,
    dir: ClusterId,
    needed: nat,
    searches: Seq<HintSearch>,
)
    requires
        volume.is_sound(disk, dir),
        volume.walk_in_reach(disk, dir),
        volume.free_slots_in_reach(disk, dir, needed),
        needed > 0,
        volume.free_slots(disk, dir, needed, searches).outcome is Found,
    ensures
        ({
            let search = volume.free_slots(disk, dir, needed, searches);
            let slots = search.outcome->Found_0;
            &&& slots.len() == needed
            &&& distinct_slots(slots)
            &&& exists|front: Seq<DirectorySlot>| volume.follows(search.disk, dir, front, slots)
            &&& forall|i: int|
                0 <= i < needed ==> {
                    &&& volume.holds_data(search.disk, (#[trigger] slots[i]).block.0 as int)
                    &&& !slot_is_valid(slot_bytes(search.disk, slots[i]))
                }
            &&& volume.is_sound(search.disk, dir)
            &&& volume.walk_in_reach(search.disk, dir)
            &&& forall|c: ClusterId| #[trigger]
                volume.in_use(disk, c) ==> volume.in_use(search.disk, c)
            &&& forall|block: u32|
                volume.holds_data(disk, block as int) ==> #[trigger] search.disk[block]
                    == disk[block]
        }),
{
    let start = volume.dir_start(dir);
    let first = FreeState::start(volume, disk, dir);
    let n = choose|n: nat| volume.free_slots_bounded(disk, dir, needed, n);
    let search = volume.free_slots(disk, dir, needed, searches);
    let slots = search.outcome->Found_0;
    assert(first.within(needed, searches, n) is Some);
    assert(Seq::<DirectorySlot>::empty().skip(0) =~= Seq::empty());
    if !volume.is_fixed_root(dir) {
        volume.lemma_cluster_place(volume.resolved(dir));
    }
    let steps = choose|k: nat| volume.walk_ends(disk, dir, k);
    assert(volume.walked(disk, start, steps) is Some);
    assert(first.on_walk(volume, start, 0));
    let end = first.lemma_found_on_walk(volume, start, 0, needed, searches, n);
    let w = volume.walked(search.disk, start, end)->0;
    let front = w.slots.take(w.slots.len() - needed);
    assert(w.slots =~= front + slots);
    assert(volume.follows(search.disk, dir, front, slots));
    if !volume.is_fixed_root(dir) {
        assert(volume.in_use(disk, volume.resolved(dir)));
    }
    let last = choose|k: nat|
        (#[trigger] volume.walked(search.disk, start, k)) matches Some(w) && volume.step(
            search.disk,
            w.at,
        ) is End;
    assert(volume.walk_ends(search.disk, dir, last));
    volume.lemma_not_behind_the_end(search.disk, dir, last, end);
    volume.lemma_no_slot_twice(search.disk, dir, last, end);
    assert forall|i: int| 0 <= i < slots.len() implies #[trigger] slots[i] == w.slots[front.len()
        + i] by {}
}

impl FatVolume {
    /// A walk that has come so far has come less far before.
    proof fn lemma_walked_before(self, disk: Disk, start: Cursor, k: nat, i: nat)
        requires
            self.walked(disk, start, k) is Some,
            i <= k,
        ensures
            self.walked(disk, start, i) is Some,
        decreases k,
    {
        if i < k {
            self.lemma_walked_before(disk, start, (k - 1) as nat, i);
        }
    }

    /// A walk comes to no place behind its end.
    pub proof fn lemma_not_behind_the_end(self, disk: Disk, dir: ClusterId, k: nat, i: nat)
        requires
            self.walk_ends(disk, dir, k),
            self.walked(disk, self.dir_start(dir), i) is Some,
        ensures
            i <= k,
    {
        if i > k {
            self.lemma_walked_before(disk, self.dir_start(dir), i, k + 1);
        }
    }

    /// From the same place a walk goes the same way.
    proof fn lemma_walked_alike(self, disk: Disk, start: Cursor, i: nat, j: nat, m: nat)
        requires
            i <= j,
            self.walked(disk, start, j + m) is Some,
            self.walked(disk, start, i) matches Some(w) && self.walked(disk, start, j) matches Some(
                v,
            ) && w.at == v.at,
        ensures
            self.walked(disk, start, i + m) matches Some(w) && self.walked(disk, start, j + m)
                matches Some(v) && w.at == v.at,
        decreases m,
    {
        if m > 0 {
            self.lemma_walked_before(disk, start, j + m, (j + m - 1) as nat);
            self.lemma_walked_alike(disk, start, i, j, (m - 1) as nat);
            self.lemma_walked_before(disk, start, j + m, i + m);
        }
    }

    /// A walk that ends does not come to the same place twice.
    proof fn lemma_no_place_twice(self, disk: Disk, dir: ClusterId, k: nat, i: nat, j: nat)
        requires
            self.walk_ends(disk, dir, k),
            i < j <= k,
        ensures
            ({
                let start = self.dir_start(dir);
                &&& self.walked(disk, start, i) matches Some(w)
                &&& self.walked(disk, start, j) matches Some(v)
                &&& w.at != v.at
            }),
    {
        let start = self.dir_start(dir);
        self.lemma_walked_before(disk, start, k, i);
        self.lemma_walked_before(disk, start, k, j);
        if (self.walked(disk, start, i)->0).at == (self.walked(disk, start, j)->0).at {
            let m = (k - j) as nat;
            self.lemma_walked_alike(disk, start, i, j, m);
            self.lemma_walked_before(disk, start, k, i + m + 1);
        }
    }

    /// Two places at which the same slot comes next are the same place.
    proof fn lemma_same_slot(self, disk: Disk, a: Cursor, b: Cursor)
        requires
            self.laid_out(),
            self.is_place(disk, a),
            self.is_place(disk, b),
            a.slot < a.blocks * 16,
            b.slot < b.blocks * 16,
            slot_place(a.first_block, a.slot) == slot_place(b.first_block, b.slot),
        ensures
            a == b,
    {
        if let Some(c) = a.cluster {
            self.lemma_cluster_place(c);
        }
        if let Some(c) = b.cluster {
            self.lemma_cluster_place(c);
        }
        if let (Some(c), Some(d)) = (a.cluster, b.cluster) {
            if c != d {
                self.lemma_clusters_apart(c, d);
            }
        }
        assert(a.cluster == b.cluster);
        assert(a.slot == b.slot);
    }

    /// No slot comes twice on a part of a walk that ends.
    proof fn lemma_no_slot_twice(self, disk: Disk, dir: ClusterId, k: nat, n: nat)
        requires
            self.laid_out(),
            self.sound_table(disk),
            self.is_directory_start(disk, dir),
            self.walk_ends(disk, dir, k),
            n <= k,
        ensures
            ({
                let start = self.dir_start(dir);
                &&& self.walked(disk, start, n) matches Some(w)
                &&& distinct_slots(w.slots)
                &&& forall|s: DirectorySlot| #[trigger]
                    w.slots.contains(s) ==> self.holds_data(disk, s.block.0 as int)
                        && exists|i: nat| #[trigger] self.comes_to(disk, start, s, i) && i < n
            }),
        decreases n,
    {
        let start = self.dir_start(dir);
        self.lemma_walked_before(disk, start, k, n);
        if n > 0 {
            let last = (n - 1) as nat;
            self.lemma_no_slot_twice(disk, dir, k, last);
            let before = self.walked(disk, start, last)->0;
            let w = self.walked(disk, start, n)->0;
            self.lemma_walk_in_use(disk, dir, last);
            if let Step::Slot(slot, _, _) = self.step(disk, before.at) {
                self.lemma_slot_at(disk, before.at);
                assert(self.comes_to(disk, start, slot, last));
                if before.slots.contains(slot) {
                    let i = choose|i: nat| #[trigger]
                        self.comes_to(disk, start, slot, i) && i < last;
                    self.lemma_walk_in_use(disk, dir, i);
                    let earlier = self.walked(disk, start, i)->0;
                    self.lemma_same_slot(disk, earlier.at, before.at);
                    self.lemma_no_place_twice(disk, dir, k, i, last);
                }
                assert forall|s: DirectorySlot| #[trigger]
                    w.slots.contains(s) implies self.holds_data(disk, s.block.0 as int)
                    && exists|i: nat| #[trigger] self.comes_to(disk, start, s, i) && i < n by {
                    if s != slot {
                        let p = choose|p: int| 0 <= p < w.slots.len() && w.slots[p] == s;
                        assert(before.slots[p] == s);
                        assert(before.slots.contains(s));
                    }
                }
                assert forall|p: int, q: int|
                    0 <= p < q < w.slots.len() implies w.slots[p] != w.slots[q] by {
                    if q == w.slots.len() - 1 {
                        assert(before.slots.contains(before.slots[p]));
                    }
                }
            } else {
                assert forall|s: DirectorySlot| #[trigger]
                    w.slots.contains(s) implies exists|i: nat| #[trigger]
                    self.comes_to(disk, start, s, i) && i < n by {
                    assert(before.slots.contains(s));
                }
            }
        }
    }

    /// Is `slot` what the walk from `start` on comes to after `k` steps?
    spec fn comes_to(self, disk: Disk, start: Cursor, slot: DirectorySlot, k: nat) -> bool {
        self.walked(disk, start, k) matches Some(w) && self.step(disk, w.at) matches Step::Slot(
            s,
            _,
            _,
        ) && s == slot
    }
}

impl FatVolume {
    /// No slot comes twice in a part of a directory that can be walked through to
    /// its end.
    pub proof fn lemma_follows_distinct(
        self,
        disk: Disk,
        dir: ClusterId,
        front: Seq<DirectorySlot>,
        slots: Seq<DirectorySlot>,
    )
        requires
            self.is_sound(disk, dir),
            self.walk_in_reach(disk, dir),
            self.follows(disk, dir, front, slots),
        ensures
            distinct_slots(front + slots),
    {
        let k = choose|k: nat| self.walk_ends(disk, dir, k);
        let i = choose|i: nat|
            (#[trigger] self.walked(disk, self.dir_start(dir), i)) matches Some(w) && w.slots
                == front + slots;
        self.lemma_not_behind_the_end(disk, dir, k, i);
        self.lemma_no_slot_twice(disk, dir, k, i);
    }
}

impl FatVolume {
    /// Does a directory begin with these slots?
    pub open spec fn begins_with(
        self,
        disk: Disk,
        dir: ClusterId,
        slots: Seq<DirectorySlot>,
    ) -> bool {
        exists|k: nat|
            (#[trigger] self.walked(disk, self.dir_start(dir), k)) matches Some(w) && slots.len()
                <= w.slots.len() && w.slots.take(slots.len() as int) == slots
    }

    /// Is this a place in the last cluster of a chain, and were the slots from
    /// here on never used?
    spec fn nothing_ahead(self, disk: Disk, at: Cursor) -> bool {
        &&& at.cluster matches Some(c) && self.link(disk, c) == Link::End
        &&& forall|i: u32|
            at.slot <= i < at.blocks * 16 ==> slot_is_end(
                slot_bytes(disk, #[trigger] slot_place(at.first_block, i)),
            )
    }
}

impl FreeState {
    /// The slots in front of the free ones.
    spec fn front(self, volume: FatVolume, dir: ClusterId, k: nat) -> Seq<DirectorySlot> {
        let slots = (volume.walked(self.disk, volume.dir_start(dir), k)->0).slots;
        slots.take(slots.len() - self.slots.len())
    }

    /// Do the slots in front of the free ones end with an entry, and did the
    /// directory begin with them when the search began on `disk`? If it was made
    /// longer since, nothing is ahead.
    spec fn follows_entry(self, volume: FatVolume, disk: Disk, dir: ClusterId, k: nat) -> bool {
        let front = self.front(volume, dir, k);
        &&& volume.begins_with(disk, dir, front)
        &&& front.len() > 0 ==> {
            &&& volume.holds_data(self.disk, front.last().block.0 as int)
            &&& slot_is_valid(slot_bytes(self.disk, front.last()))
        }
        &&& self.disk == disk || volume.nothing_ahead(self.disk, self.at)
    }

    /// A step of the search keeps that so.
    proof fn lemma_step_follows_entry(
        self,
        volume: FatVolume,
        disk: Disk,
        dir: ClusterId,
        k: nat,
        needed: nat,
        search: HintSearch,
        next: FreeState,
    )
        requires
            volume.laid_out(),
            self.on_walk(volume, volume.dir_start(dir), k),
            self.follows_entry(volume, disk, dir, k),
            self.step(needed, search) == FreeStep::Next(next),
        ensures
            next.follows_entry(volume, disk, dir, k + 1),
    {
        reveal(FreeState::step);
        let start = volume.dir_start(dir);
        self.volume.lemma_same_step(volume, self.disk, self.at);
        let w = volume.walked(self.disk, start, k)->0;
        match volume.step(self.disk, self.at) {
            Step::Slot(slot, raw, place) => {
                volume.lemma_slot_at(self.disk, self.at);
                let longer = w.slots.push(slot);
                assert(volume.walked(self.disk, start, k + 1) matches Some(v) && v.slots == longer);
                if slot_is_valid(raw) {
                    assert(self.disk == disk);
                    assert(longer.take(longer.len() as int) =~= longer);
                    assert(next.front(volume, dir, k + 1) =~= longer);
                } else {
                    assert(next.front(volume, dir, k + 1) =~= self.front(volume, dir, k));
                }
            },
            Step::Enter(_) => {
                assert(next.front(volume, dir, k + 1) =~= self.front(volume, dir, k));
            },
            Step::End(DirEnd::Chain(c, Link::End)) => {
                self.lemma_growth_follows_entry(volume, disk, dir, k, needed, search, next);
            },
            _ => {},
        }
    }

    /// So does making the directory longer.
    #[verifier::rlimit(40)]
    proof fn lemma_growth_follows_entry(
        self,
        volume: FatVolume,
        disk: Disk,
        dir: ClusterId,
        k: nat,
        needed: nat,
        search: HintSearch,
        next: FreeState,
    )
        requires
            volume.laid_out(),
            self.on_walk(volume, volume.dir_start(dir), k),
            self.follows_entry(volume, disk, dir, k),
            self.step(needed, search) == FreeStep::Next(next),
            volume.step(self.disk, self.at) matches Step::End(DirEnd::Chain(_, Link::End)),
        ensures
            next.follows_entry(volume, disk, dir, k + 1),
    {
        reveal(FreeState::step);
        let start = volume.dir_start(dir);
        self.volume.lemma_same_step(volume, self.disk, self.at);
        self.lemma_grows_on_walk(volume, start, k, needed, search, next);
        let w = volume.walked(self.disk, start, k)->0;
        let c = self.at.cluster->0;
        let a = self.volume.allocation(self.disk, Some(c), true, search)->0;
        let new = a.cluster;
        law_allocated_was_free(self.volume, self.disk, Some(c), true, search);
        assert(self.volume.entry(self.disk, new) == volume.entry(self.disk, new));
        assert(volume.in_volume(new));
        assert(volume.in_use(self.disk, c));
        volume.lemma_growth(self.disk, c, new);
        let claimed = volume.with_claim(self.disk, Some(c), new);
        assert(self.volume.with_claim(self.disk, Some(c), new) == claimed);
        assert(self.volume.block_of(new) == volume.block_of(new));
        assert forall|i: int| 0 <= i < w.clusters.len() implies volume.link(
            next.disk,
            #[trigger] w.clusters[i],
        ) == volume.link(self.disk, w.clusters[i]) by {
            assert(volume.in_use(self.disk, w.clusters[i]));
        }
        volume.lemma_same_walk(self.disk, next.disk, start, k);
        volume.lemma_cluster_place(new);
        assert(volume.step(next.disk, self.at) == Step::Enter(volume.cluster_start(new)));
        assert(next.front(volume, dir, k + 1) =~= self.front(volume, dir, k));
        let front = self.front(volume, dir, k);
        if front.len() > 0 {
            FreeState::lemma_keeps(volume, self.disk, next.disk, front.last().block.0 as int);
        }
        let at = next.at;
        assert forall|i: u32| at.slot <= i < at.blocks * 16 implies slot_is_end(
            slot_bytes(next.disk, #[trigger] slot_place(at.first_block, i)),
        ) by {
            let slot = slot_place(at.first_block, i);
            law_zeroed(
                claimed,
                volume.block_of(new),
                volume.blocks_per_cluster as nat,
                slot.block.0,
            );
        }
    }

    /// A search that ends with slots ends with those right behind an entry, or
    /// with those that the directory begins with.
    #[verifier::rlimit(40)]
    proof fn lemma_found_behind_entry(
        self,
        volume: FatVolume,
        disk: Disk,
        dir: ClusterId,
        k: nat,
        needed: nat,
        searches: Seq<HintSearch>,
        n: nat,
    ) -> (front: Seq<DirectorySlot>)
        requires
            volume.laid_out(),
            self.on_walk(volume, volume.dir_start(dir), k),
            self.follows_entry(volume, disk, dir, k),
            self.slots.len() < needed,
            self.within(needed, searches, n) matches Some(search) && search.outcome is Found,
        ensures
            ({
                let search = self.within(needed, searches, n)->0;
                let slots = search.outcome->Found_0;
                &&& volume.follows(search.disk, dir, front, slots)
                &&& volume.begins_with(disk, dir, front)
                &&& front.len() > 0 ==> slot_is_valid(slot_bytes(search.disk, front.last()))
            }),
        decreases n,
    {
        let start = volume.dir_start(dir);
        let search = self.within(needed, searches, n)->0;
        match self.step(needed, first_search(searches)) {
            FreeStep::Next(next) => {
                let hint = first_search(searches);
                self.lemma_step_on_walk(volume, start, k, needed, hint, next);
                self.lemma_step_follows_entry(volume, disk, dir, k, needed, hint, next);
                assert(next.slots.len() < needed) by {
                    reveal(FreeState::step);
                }
                next.lemma_found_behind_entry(
                    volume,
                    disk,
                    dir,
                    k + 1,
                    needed,
                    later_searches(searches),
                    (n - 1) as nat,
                )
            },
            _ => {
                reveal(FreeState::step);
                self.volume.lemma_same_step(volume, self.disk, self.at);
                let w = volume.walked(self.disk, start, k)->0;
                let slots = search.outcome->Found_0;
                let front = self.front(volume, dir, k);
                let longer = w.slots.push(slots.last());
                assert(volume.walked(search.disk, start, k + 1) matches Some(v) && v.slots
                    == longer);
                assert(front + slots =~= longer);
                front
            },
        }
    }
}

/// The slots that a new entry is given are those with which the directory begins,
/// or stand right behind an entry that was there before. So no slot in front of
/// them was added for their sake.
pub proof fn law_found_behind_an_entry(
    volume: FatVolume,
    disk: Disk,
    dir: ClusterId,
    needed: nat,
    searches: Seq<HintSearch>,
)
    requires
        volume.is_sound(disk, dir),
        volume.walk_in_reach(disk, dir),
        volume.free_slots_in_reach(disk, dir, needed),
        needed > 0,
        volume.free_slots(disk, dir, needed, searches).outcome is Found,
    ensures
        ({
            let search = volume.free_slots(disk, dir, needed, searches);
            let slots = search.outcome->Found_0;
            exists|front: Seq<DirectorySlot>|
                {
                    &&& #[trigger] volume.follows(search.disk, dir, front, slots)
                    &&& volume.begins_with(disk, dir, front)
                    &&& front.len() > 0 ==> slot_is_valid(slot_bytes(search.disk, front.last()))
                }
        }),
{
    let start = volume.dir_start(dir);
    let first = FreeState::start(volume, disk, dir);
    let n = choose|n: nat| volume.free_slots_bounded(disk, dir, needed, n);
    assert(first.within(needed, searches, n) is Some);
    assert(Seq::<DirectorySlot>::empty().skip(0) =~= Seq::empty());
    if !volume.is_fixed_root(dir) {
        volume.lemma_cluster_place(volume.resolved(dir));
    }
    let steps = choose|k: nat| volume.walk_ends(disk, dir, k);
    assert(volume.walked(disk, start, steps) is Some);
    assert(first.on_walk(volume, start, 0));
    assert(first.front(volume, dir, 0) =~= Seq::empty());
    assert(volume.begins_with(disk, dir, Seq::empty())) by {
        let w = volume.walked(disk, start, 0)->0;
        assert(w.slots.take(0) =~= Seq::empty());
    }
    let front = first.lemma_found_behind_entry(volume, disk, dir, 0, needed, searches, n);
}

impl FatVolume {
    /// Is a directory made of the slots `all`, and behind them of slots that were
    /// never used?
    pub open spec fn made_longer(
        self,
        disk: Disk,
        dir: ClusterId,
        all: Seq<DirectorySlot>,
    ) -> bool {
        exists|extra: Seq<DirectorySlot>| #[trigger]
            self.is_made_of(disk, dir, all + extra, Link::End) && never_used(disk, extra)
    }

    /// There is one way in which a directory is made of slots.
    pub proof fn lemma_made_of_one(
        self,
        disk: Disk,
        dir: ClusterId,
        a: Seq<DirectorySlot>,
        a_end: Link,
        b: Seq<DirectorySlot>,
        b_end: Link,
    )
        requires
            self.is_made_of(disk, dir, a, a_end),
            self.is_made_of(disk, dir, b, b_end),
        ensures
            a == b,
            a_end == b_end,
    {
        let k = self.lemma_steps_of(disk, dir, a, a_end);
        let m = self.lemma_steps_of(disk, dir, b, b_end);
        self.lemma_not_behind_the_end(disk, dir, k, m);
        self.lemma_not_behind_the_end(disk, dir, m, k);
    }

    /// How many steps it takes to walk through a directory.
    pub proof fn lemma_steps_of(
        self,
        disk: Disk,
        dir: ClusterId,
        all: Seq<DirectorySlot>,
        end: Link,
    ) -> (k: nat)
        requires
            self.is_made_of(disk, dir, all, end),
        ensures
            self.walk_ends(disk, dir, k),
            (self.walked(disk, self.dir_start(dir), k)->0).slots == all,
            end_link(self.step(disk, (self.walked(disk, self.dir_start(dir), k)->0).at)->End_0)
                == end,
    {
        choose|k: nat|
            {
                let w = self.walked(disk, self.dir_start(dir), k)->0;
                &&& #[trigger] self.walk_ends(disk, dir, k)
                &&& w.slots == all
                &&& end_link(self.step(disk, w.at)->End_0) == end
            }
    }

    /// The first `n` slots of a cluster.
    spec fn slots_in(self, c: ClusterId, n: nat) -> Seq<DirectorySlot> {
        Seq::new(n, |i: int| slot_place(self.cluster_start(c).first_block, i as u32))
    }

    /// A walk that has come to the beginning of the last cluster of a chain comes
    /// by the slots of that cluster.
    proof fn lemma_last_slots(self, disk: Disk, start: Cursor, k: nat, c: ClusterId, i: nat)
        requires
            self.laid_out(),
            self.in_volume(c),
            self.walked(disk, start, k) matches Some(w) && w.at == self.cluster_start(c),
            i <= self.blocks_per_cluster * 16,
        ensures
            self.walked(disk, start, k + i) matches Some(w) && {
                &&& w.at == (Cursor { slot: i as u32, ..self.cluster_start(c) })
                &&& w.slots == (self.walked(disk, start, k)->0).slots + self.slots_in(c, i)
            },
        decreases i,
    {
        let first = (self.walked(disk, start, k)->0).slots;
        if i > 0 {
            self.lemma_last_slots(disk, start, k, c, (i - 1) as nat);
            let before = self.walked(disk, start, (k + i - 1) as nat)->0;
            let slot = slot_place(self.cluster_start(c).first_block, (i - 1) as u32);
            assert(before.slots.push(slot) =~= first + self.slots_in(c, i));
        } else {
            assert(first + self.slots_in(c, 0) =~= first);
        }
    }
}

/// Was none of these slots ever used?
pub open spec fn never_used(disk: Disk, slots: Seq<DirectorySlot>) -> bool {
    forall|i: int| 0 <= i < slots.len() ==> slot_is_end(slot_bytes(disk, #[trigger] slots[i]))
}

impl FreeState {
    /// Making the directory longer adds slots that were never used.
    #[verifier::rlimit(40)]
    proof fn lemma_growth_adds_blanks(
        self,
        volume: FatVolume,
        dir: ClusterId,
        all: Seq<DirectorySlot>,
        k: nat,
        needed: nat,
        search: HintSearch,
        next: FreeState,
    )
        requires
            volume.laid_out(),
            volume.is_directory_start(self.disk, dir),
            self.on_walk(volume, volume.dir_start(dir), k),
            volume.made_longer(self.disk, dir, all),
            self.step(needed, search) == FreeStep::Next(next),
            volume.step(self.disk, self.at) matches Step::End(DirEnd::Chain(_, Link::End)),
        ensures
            volume.made_longer(next.disk, dir, all),
    {
        reveal(FreeState::step);
        let start = volume.dir_start(dir);
        let extra = choose|extra: Seq<DirectorySlot>| #[trigger]
            volume.is_made_of(self.disk, dir, all + extra, Link::End) && never_used(
                self.disk,
                extra,
            );
        let m = volume.lemma_steps_of(self.disk, dir, all + extra, Link::End);
        let w = volume.walked(self.disk, start, k)->0;
        assert(volume.walk_ends(self.disk, dir, k));
        volume.lemma_not_behind_the_end(self.disk, dir, k, m);
        volume.lemma_not_behind_the_end(self.disk, dir, m, k);
        law_no_slot_twice(volume, self.disk, dir, k);
        self.volume.lemma_same_step(volume, self.disk, self.at);
        let c = self.at.cluster->0;
        let a = self.volume.allocation(self.disk, Some(c), true, search)->0;
        let new = a.cluster;
        law_allocated_was_free(self.volume, self.disk, Some(c), true, search);
        assert(self.volume.entry(self.disk, new) == volume.entry(self.disk, new));
        assert(volume.in_volume(new));
        assert(volume.in_use(self.disk, c));
        volume.lemma_growth(self.disk, c, new);
        let claimed = volume.with_claim(self.disk, Some(c), new);
        assert(self.volume.with_claim(self.disk, Some(c), new) == claimed);
        assert(self.volume.block_of(new) == volume.block_of(new));
        assert forall|i: int| 0 <= i < w.clusters.len() implies volume.link(
            next.disk,
            #[trigger] w.clusters[i],
        ) == volume.link(self.disk, w.clusters[i]) by {
            assert(volume.in_use(self.disk, w.clusters[i]));
        }
        volume.lemma_same_walk(self.disk, next.disk, start, k);
        volume.lemma_cluster_place(new);
        volume.lemma_entry_place(new);
        assert(volume.step(next.disk, self.at) == Step::Enter(volume.cluster_start(new)));
        let count = (volume.blocks_per_cluster * 16) as nat;
        let blanks = volume.slots_in(new, count);
        assert(volume.walked(next.disk, start, k + 1) matches Some(v) && v.slots == w.slots);
        volume.lemma_last_slots(next.disk, start, k + 1, new, count);
        let last = volume.walked(next.disk, start, k + 1 + count)->0;
        assert(volume.step(next.disk, last.at) == Step::End(DirEnd::Chain(new, Link::End)));
        let longer = extra + blanks;
        assert(last.slots =~= all + longer);
        assert forall|i: int| 0 <= i < longer.len() implies slot_is_end(
            slot_bytes(next.disk, #[trigger] longer[i]),
        ) by {
            if i < extra.len() {
                assert(longer[i] == extra[i]);
                assert((all + extra)[all.len() + i] == extra[i]);
                assert(volume.holds_data(self.disk, (all + extra)[all.len() + i].block.0 as int));
                assert(next.disk[extra[i].block.0] == self.disk[extra[i].block.0]);
            } else {
                law_zeroed(
                    claimed,
                    volume.block_of(new),
                    volume.blocks_per_cluster as nat,
                    longer[i].block.0,
                );
            }
        }
        assert(volume.walk_ends(next.disk, dir, k + 1 + count));
        assert(volume.is_made_of(next.disk, dir, all + longer, Link::End));
    }

    /// However long a directory becomes in the search, what is added to it was
    /// never used.
    proof fn lemma_search_adds_blanks(
        self,
        volume: FatVolume,
        dir: ClusterId,
        all: Seq<DirectorySlot>,
        k: nat,
        needed: nat,
        searches: Seq<HintSearch>,
        n: nat,
    )
        requires
            volume.laid_out(),
            volume.is_directory_start(self.disk, dir),
            self.on_walk(volume, volume.dir_start(dir), k),
            volume.made_longer(self.disk, dir, all),
            self.within(needed, searches, n) is Some,
        ensures
            volume.made_longer((self.within(needed, searches, n)->0).disk, dir, all),
        decreases n,
    {
        let start = volume.dir_start(dir);
        let hint = first_search(searches);
        match self.step(needed, hint) {
            FreeStep::Next(next) => {
                self.lemma_step_on_walk(volume, start, k, needed, hint, next);
                if !volume.is_fixed_root(dir) {
                    assert(volume.in_use(self.disk, volume.resolved(dir)));
                }
                self.volume.lemma_same_step(volume, self.disk, self.at);
                match volume.step(self.disk, self.at) {
                    Step::End(DirEnd::Chain(_, Link::End)) => {
                        self.lemma_growth_adds_blanks(volume, dir, all, k, needed, hint, next);
                    },
                    _ => {
                        reveal(FreeState::step);
                        assert(next.disk == self.disk);
                    },
                }
                next.lemma_search_adds_blanks(
                    volume,
                    dir,
                    all,
                    k + 1,
                    needed,
                    later_searches(searches),
                    (n - 1) as nat,
                );
            },
            _ => {
                reveal(FreeState::step);
            },
        }
    }
}

/// However long a directory becomes while room for an entry is looked for, it
/// keeps its slots, and what is added behind them was never used.
pub proof fn law_search_adds_blanks(
    volume: FatVolume,
    disk: Disk,
    dir: ClusterId,
    all: Seq<DirectorySlot>,
    needed: nat,
    searches: Seq<HintSearch>,
)
    requires
        volume.is_sound(disk, dir),
        volume.is_made_of(disk, dir, all, Link::End),
        volume.free_slots_in_reach(disk, dir, needed),
    ensures
        volume.made_longer(volume.free_slots(disk, dir, needed, searches).disk, dir, all),
{
    let start = volume.dir_start(dir);
    let first = FreeState::start(volume, disk, dir);
    let n = choose|n: nat| volume.free_slots_bounded(disk, dir, needed, n);
    assert(first.within(needed, searches, n) is Some);
    assert(Seq::<DirectorySlot>::empty().skip(0) =~= Seq::empty());
    if !volume.is_fixed_root(dir) {
        volume.lemma_cluster_place(volume.resolved(dir));
    }
    let steps = volume.lemma_steps_of(disk, dir, all, Link::End);
    assert(volume.walked(disk, start, steps) is Some);
    assert(first.on_walk(volume, start, 0));
    assert(all + Seq::<DirectorySlot>::empty() =~= all);
    assert(never_used(disk, Seq::empty()));
    assert(volume.is_made_of(disk, dir, all + Seq::empty(), Link::End));
    first.lemma_search_adds_blanks(volume, dir, all, 0, needed, searches, n);
}

/// The slots of a directory that can be walked through to its end stand where
/// slots can stand, and none of them comes twice. All of them are in the region
/// of the root directory or in clusters that are in use.
pub proof fn law_no_slot_twice(volume: FatVolume, disk: Disk, dir: ClusterId, k: nat)
    requires
        volume.laid_out(),
        volume.sound_table(disk),
        volume.is_directory_start(disk, dir),
        volume.walk_ends(disk, dir, k),
    ensures
        ({
            let slots = (volume.walked(disk, volume.dir_start(dir), k)->0).slots;
            &&& distinct_slots(slots)
            &&& forall|i: int|
                0 <= i < slots.len() ==> volume.holds_data(
                    disk,
                    (#[trigger] slots[i]).block.0 as int,
                )
        }),
{
    volume.lemma_no_slot_twice(disk, dir, k, k);
    let slots = (volume.walked(disk, volume.dir_start(dir), k)->0).slots;
    assert forall|i: int| 0 <= i < slots.len() implies volume.holds_data(
        disk,
        (#[trigger] slots[i]).block.0 as int,
    ) by {
        assert(slots.contains(slots[i]));
    }
}

} // verus!
