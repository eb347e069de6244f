//! On a sound volume, what the operations ask for is met.

use crate::allocation::{zeroed, HintSearch};
use crate::block::{blank_block, BlockCount, BlockIdx, Disk};
use crate::boot::Boot;
use crate::directory::{slot_bytes, slot_place, Cursor, DirEnd, Step};
use crate::entry::{ClusterId, FatType};
use crate::free_slots::{first_search, later_searches, FreeState, FreeStep};
use crate::laws::{
    all_apart, is_chain, law_allocated_was_free, law_blocks_stay_whole, law_end_reads_back,
    law_other_entries_stay, law_truncation, law_zeroed, whole_blocks,
};
use crate::long_name::long_name_length;
use crate::make_dir::{first_dir_block, NewDir};
use crate::table::Link;
use crate::time::Timestamp;
use crate::volume::FatVolume;
use vstd::prelude::*;

verus! {

impl FatVolume {
    /// Can `n` clusters be counted as claimed, and is the hint, if there is one,
    /// the number of a cluster?
    pub open spec fn can_claim(self, n: nat) -> bool {
        &&& self.free_clusters_count matches Some(count) ==> count >= n
        &&& self.next_free_cluster matches Some(c) ==> c.0 >= 2
    }
}

/// A volume whose boot sector gives its tables enough room for its clusters has
/// its parts one behind the other.
pub proof fn law_opened_volume_is_laid_out(
    boot: Boot,
    volume: FatVolume,
    lba_start: BlockIdx,
    num_blocks: BlockCount,
)
    requires
        boot.describes(volume, lba_start, num_blocks),
        boot.format_error() is None,
        lba_start.0 + boot.blocks() <= u32::MAX,
        boot.fats() == 1 || boot.fats() == 2,
        match boot.fat_type() {
            FatType::Fat16 => 2 * (boot.clusters() + 2) <= 512 * boot.fat_blocks(),
            FatType::Fat32 => {
                &&& 4 * (boot.clusters() + 2) <= 512 * boot.fat_blocks()
                &&& boot.clusters() + 2 <= 0x0FFF_FFF7
                &&& boot.root_entries() == 0
            },
        },
    ensures
        volume.laid_out(),
{
    let room = boot.blocks() - boot.data_start();
    let per = boot.cluster_blocks();
    assert(room / per * per <= room) by (nonlinear_arith)
        requires
            per > 0,
            room >= 0,
    ;
    assert(boot.fats() * boot.fat_blocks() == if boot.fats() == 1 {
        boot.fat_blocks()
    } else {
        2 * boot.fat_blocks()
    });
}

/// On a volume that is laid out, a cluster can be allocated.
pub proof fn law_allocation_in_reach(
    volume: FatVolume,
    disk: Disk,
    prev: Option<ClusterId>,
    zero: bool,
)
    requires
        volume.laid_out(),
        volume.can_claim(1),
        prev matches Some(p) ==> volume.in_volume(p),
    ensures
        volume.allocation_in_reach(disk, prev, zero),
{
    volume.lemma_first_free(disk, volume.search_start(), volume.end_cluster());
    volume.lemma_first_free(disk, 2, volume.end_cluster());
    if let Some(c) = volume.chosen(disk) {
        volume.lemma_entry_place(c);
        volume.lemma_cluster_place(c);
    }
    if let Some(p) = prev {
        volume.lemma_entry_place(p);
    }
    if volume.cluster_count > 0 {
        volume.lemma_entry_place(ClusterId((volume.end_cluster() - 1) as u32));
    }
}

impl FatVolume {
    /// Does a walk from `at` on end after `r` steps?
    spec fn steps_left(self, disk: Disk, at: Cursor, r: nat) -> bool
        decreases r,
    {
        match self.step(disk, at) {
            Step::Slot(_, _, next) => r > 0 && self.steps_left(disk, next, (r - 1) as nat),
            Step::Enter(next) => r > 0 && self.steps_left(disk, next, (r - 1) as nat),
            Step::End(_) => true,
            Step::OutOfReach => false,
        }
    }

    /// Where a walk ends after `k` steps, it ends after the rest of them from
    /// everywhere that it comes by.
    proof fn lemma_steps_left(self, disk: Disk, dir: ClusterId, k: nat, i: nat)
        requires
            self.walk_ends(disk, dir, k),
            i <= k,
        ensures
            self.walked(disk, self.dir_start(dir), i) matches Some(w) && self.steps_left(
                disk,
                w.at,
                (k - i) as nat,
            ),
        decreases k - i,
    {
        if i < k {
            self.lemma_steps_left(disk, dir, k, i + 1);
        }
    }
}

/// Once a cluster was claimed, one less can be.
proof fn lemma_claims_left(
    volume: FatVolume,
    disk: Disk,
    c: ClusterId,
    search: HintSearch,
    n: nat,
)
    requires
        volume.end_cluster() <= u32::MAX,
        volume.can_claim(n + 1),
        c.0 >= 2,
    ensures
        volume.after_claim(disk, c, search).can_claim(n),
{
    volume.lemma_first_free(disk, c.0 as int, volume.end_cluster());
    volume.lemma_first_free(disk, 2, volume.end_cluster());
}

impl FreeState {
    /// Is this a search on a sound volume, at a place in the directory?
    spec fn is_sound(self) -> bool {
        &&& self.volume.laid_out()
        &&& whole_blocks(self.disk)
        &&& self.volume.sound_table(self.disk)
        &&& self.volume.is_place(self.disk, self.at)
    }

    /// Is the search in a cluster that the directory was made longer by?
    spec fn in_new_cluster(self) -> bool {
        &&& self.at.cluster matches Some(c) && self.volume.link(self.disk, c) == Link::End
        &&& self.at.slot <= self.at.blocks * 16
        &&& forall|i: int|
            0 <= i < self.at.blocks ==> self.disk[#[trigger] ((self.at.first_block.0 + i) as u32)]
                == blank_block()
    }

    /// Making the directory longer leads to the beginning of a blank cluster.
    proof fn lemma_grows(self, needed: nat, search: HintSearch, n: nat)
        requires
            self.is_sound(),
            self.volume.can_claim(n + 1),
            self.volume.step(self.disk, self.at) matches Step::End(DirEnd::Chain(_, Link::End)),
        ensures
            match self.step(needed, search) {
                FreeStep::Next(next) => {
                    &&& next.is_sound()
                    &&& next.in_new_cluster()
                    &&& next.volume.can_claim(n)
                    &&& next.at.slot == 0
                    &&& next.volume.blocks_per_cluster == self.volume.blocks_per_cluster
                    &&& next.slots == self.slots
                },
                FreeStep::Done(_) => true,
                FreeStep::OutOfReach => false,
            },
    {
        reveal(FreeState::step);
        let volume = self.volume;
        let c = self.at.cluster->0;
        assert(volume.in_use(self.disk, c));
        law_allocation_in_reach(volume, self.disk, Some(c), true);
        if let Some(a) = volume.allocation(self.disk, Some(c), true, search) {
            let new = a.cluster;
            let claimed = volume.with_claim(self.disk, Some(c), new);
            law_allocated_was_free(volume, self.disk, Some(c), true, search);
            volume.lemma_first_free(self.disk, volume.search_start(), volume.end_cluster());
            volume.lemma_first_free(self.disk, 2, volume.end_cluster());
            assert(volume.in_volume(new));
            volume.lemma_growth(self.disk, c, new);
            volume.lemma_cluster_place(new);
            lemma_claims_left(volume, claimed, new, search, n);
            lemma_same_soundness(volume, a.volume, a.disk, a.volume.cluster_start(new));
            assert(volume.in_use(a.disk, new));
            assert(a.volume.cluster_start(new) == volume.cluster_start(new));
            assert forall|i: int| 0 <= i < volume.blocks_per_cluster implies a.disk[#[trigger] ((
            volume.block_of(new) + i) as u32)] == blank_block() by {
                law_zeroed(
                    claimed,
                    volume.block_of(new),
                    volume.blocks_per_cluster as nat,
                    (volume.block_of(new) + i) as u32,
                );
            }
            assert(volume.link(a.disk, new) == a.volume.link(a.disk, new));
        }
    }

    /// The search ends once the directory was made longer: every slot that comes
    /// then is free.
    proof fn lemma_ends_in_new_cluster(self, needed: nat, searches: Seq<HintSearch>, n: nat)
        requires
            self.is_sound(),
            self.in_new_cluster(),
            self.slots.len() < needed,
            self.volume.can_claim((needed - self.slots.len() + self.at.slot) as nat),
            n >= self.at.blocks * 16 - self.at.slot + 1 + 2 * (needed - self.slots.len()
                + self.at.slot),
        ensures
            self.within(needed, searches, n) is Some,
        decreases n,
    {
        let search = first_search(searches);
        let rest = later_searches(searches);
        let c = self.at.cluster->0;
        self.volume.lemma_cluster_place(c);
        self.volume.lemma_entry_place(c);
        if self.at.slot < self.at.blocks * 16 {
            let slot = slot_place(self.at.first_block, self.at.slot);
            let raw = slot_bytes(self.disk, slot);
            assert(slot.block.0 == (self.at.first_block.0 + (self.at.slot / 16) as int) as u32);
            assert(raw[0] == 0);
            assert(self.step(needed, search) is Done || (self.step(needed, search)
                == FreeStep::Next(
                (FreeState {
                    at: (Cursor { slot: (self.at.slot + 1) as u32, ..self.at }),
                    slots: self.slots.push(slot),
                    ..self
                }),
            ) && self.slots.len() + 1 < needed)) by {
                reveal(FreeState::step);
            }
            if let FreeStep::Next(next) = self.step(needed, search) {
                next.lemma_ends_in_new_cluster(needed, rest, (n - 1) as nat);
            }
        } else {
            let left = (needed - self.slots.len()) as nat;
            self.lemma_grows(needed, search, left);
            if let FreeStep::Next(next) = self.step(needed, search) {
                next.lemma_ends_in_new_cluster(needed, rest, (n - 1) as nat);
            }
        }
    }

    /// The search ends: with the directory, or soon after it.
    proof fn lemma_ends(self, needed: nat, searches: Seq<HintSearch>, r: nat, n: nat)
        requires
            self.is_sound(),
            self.slots.len() < needed,
            self.volume.can_claim(needed + 1),
            self.volume.steps_left(self.disk, self.at, r),
            n >= r + 16 * self.volume.blocks_per_cluster + 2 + 2 * needed,
        ensures
            self.within(needed, searches, n) is Some,
        decreases r,
    {
        let search = first_search(searches);
        let rest = later_searches(searches);
        match self.volume.step(self.disk, self.at) {
            Step::Slot(slot, raw, next_at) => {
                assert(match self.step(needed, search) {
                    FreeStep::Next(next) => {
                        &&& next.volume == self.volume && next.disk == self.disk
                        &&& next.at == next_at
                        &&& next.slots.len() < needed
                    },
                    FreeStep::Done(_) => true,
                    FreeStep::OutOfReach => false,
                }) by {
                    reveal(FreeState::step);
                }
                if let FreeStep::Next(next) = self.step(needed, search) {
                    next.lemma_ends(needed, rest, (r - 1) as nat, (n - 1) as nat);
                }
            },
            Step::Enter(next_at) => {
                let c = self.at.cluster->0;
                assert(self.volume.in_use(self.disk, c));
                let to = self.volume.link(self.disk, c)->Next_0;
                assert(self.volume.in_use(self.disk, to));
                let next = FreeState { at: next_at, ..self };
                assert(self.step(needed, search) == FreeStep::Next(next)) by {
                    reveal(FreeState::step);
                }
                next.lemma_ends(needed, rest, (r - 1) as nat, (n - 1) as nat);
            },
            Step::End(DirEnd::Chain(_, Link::End)) => {
                self.lemma_grows(needed, search, needed);
                if let FreeStep::Next(next) = self.step(needed, search) {
                    next.lemma_ends_in_new_cluster(needed, rest, (n - 1) as nat);
                }
            },
            _ => {
                reveal(FreeState::step);
            },
        }
    }
}

/// What is known of the free clusters does not matter to whether a volume is
/// sound.
proof fn lemma_same_soundness(volume: FatVolume, other: FatVolume, disk: Disk, at: Cursor)
    requires
        other.same_layout(volume),
        volume.laid_out(),
        volume.sound_table(disk),
        volume.is_place(disk, at),
    ensures
        other.laid_out(),
        other.sound_table(disk),
        other.is_place(disk, at),
{
    assert forall|c: ClusterId| #[trigger] other.in_use(disk, c) implies match other.link(disk, c) {
        Link::Next(next) => other.in_use(disk, next),
        _ => true,
    } by {
        assert(volume.in_use(disk, c));
        assert(other.link(disk, c) == volume.link(disk, c));
    }
}

/// On a sound volume, room for an entry can be looked for in a directory that
/// can be walked through to its end.
pub proof fn law_search_in_reach(
    volume: FatVolume,
    disk: Disk,
    dir: ClusterId,
    needed: nat,
)
    requires
        volume.is_sound(disk, dir),
        volume.walk_in_reach(disk, dir),
        needed > 0,
        volume.can_claim(needed + 1),
    ensures
        volume.free_slots_in_reach(disk, dir, needed),
{
    let k = choose|k: nat| volume.walk_ends(disk, dir, k);
    let n = k + 16 * (volume.blocks_per_cluster as nat) + 2 + 2 * needed;
    let first = FreeState::start(volume, disk, dir);
    volume.lemma_walk_in_use(disk, dir, 0);
    volume.lemma_steps_left(disk, dir, k, 0);
    assert forall|searches: Seq<HintSearch>|
        (#[trigger] first.within(needed, searches, n)) is Some by {
        first.lemma_ends(needed, searches, k, n);
    }
    assert(volume.free_slots_bounded(disk, dir, needed, n));
}

impl FatVolume {
    /// Where no cluster that is in use leads elsewhere, a sound volume stays
    /// sound, and a directory can be walked through as before.
    proof fn lemma_stays_sound(self, disk: Disk, after: Disk, dir: ClusterId)
        requires
            self.is_sound(disk, dir),
            self.walk_in_reach(disk, dir),
            whole_blocks(after),
            self.sound_table(after),
            forall|c: ClusterId| #[trigger]
                self.in_use(disk, c) ==> self.in_use(after, c) && self.link(after, c) == self.link(
                    disk,
                    c,
                ),
        ensures
            self.is_sound(after, dir),
            self.walk_in_reach(after, dir),
    {
        let k = choose|k: nat| self.walk_ends(disk, dir, k);
        let start = self.dir_start(dir);
        let w = self.walked(disk, start, k)->0;
        self.lemma_walk_in_use(disk, dir, k);
        assert forall|i: int| 0 <= i < w.clusters.len() implies self.link(
            after,
            #[trigger] w.clusters[i],
        ) == self.link(disk, w.clusters[i]) by {
            assert(self.in_use(disk, w.clusters[i]));
        }
        self.lemma_same_walk(disk, after, start, k);
        if let Some(c) = w.at.cluster {
            assert(self.in_use(disk, c));
        }
        assert(self.walk_ends(after, dir, k));
        if !self.is_fixed_root(dir) {
            assert(self.in_use(disk, self.resolved(dir)));
        }
    }

    /// What is known of the free clusters does not matter to a walk.
    pub proof fn lemma_same_walks(self, other: FatVolume, disk: Disk, dir: ClusterId)
        requires
            other.same_layout(self),
            self.is_sound(disk, dir),
            self.walk_in_reach(disk, dir),
        ensures
            other.is_sound(disk, dir),
            other.walk_in_reach(disk, dir),
    {
        let k = choose|k: nat| self.walk_ends(disk, dir, k);
        self.lemma_walk_in_use(disk, dir, 0);
        lemma_same_soundness(self, other, disk, self.dir_start(dir));
        self.lemma_same_walked(other, disk, self.dir_start(dir), k);
        let w = self.walked(disk, self.dir_start(dir), k)->0;
        other.lemma_same_step(self, disk, w.at);
        assert(other.dir_start(dir) == self.dir_start(dir));
        assert(other.walk_ends(disk, dir, k));
        assert(other.in_use(disk, other.resolved(dir)) == self.in_use(disk, self.resolved(dir)));
    }

    /// What is known of the free clusters does not matter to a part of a walk.
    proof fn lemma_same_walked(self, other: FatVolume, disk: Disk, start: Cursor, k: nat)
        requires
            other.same_layout(self),
        ensures
            other.walked(disk, start, k) == self.walked(disk, start, k),
        decreases k,
    {
        if k > 0 {
            self.lemma_same_walked(other, disk, start, (k - 1) as nat);
            if let Some(w) = self.walked(disk, start, (k - 1) as nat) {
                other.lemma_same_step(self, disk, w.at);
            }
        }
    }

    /// A cluster that was claimed for a chain of its own, and then filled: a
    /// sound volume stays sound.
    pub proof fn lemma_new_dir_is_sound(
        self,
        disk: Disk,
        new: ClusterId,
        dir: NewDir,
        now: Timestamp,
    )
        requires
            self.is_sound(disk, dir.parent),
            self.walk_in_reach(disk, dir.parent),
            self.in_volume(new),
            self.entry(disk, new) == 0,
        ensures
            ({
                let after = self.with_dir(
                    self.with_claim(disk, None, new),
                    new,
                    dir.parent,
                    dir.attributes,
                    now,
                    self.further_blocks(),
                );
                &&& self.is_sound(after, dir.parent)
                &&& self.walk_in_reach(after, dir.parent)
            }),
    {
        let end = ClusterId(ClusterId::END_OF_FILE);
        let claimed = self.with_claim(disk, None, new);
        let n = self.further_blocks();
        let block = first_dir_block(new, dir.parent, dir.attributes, now, self.fat_type());
        let first = claimed.insert(self.block_of(new) as u32, block);
        let after = zeroed(first, self.block_of(new) + 1, n);
        self.lemma_entry_place(new);
        self.lemma_cluster_place(new);
        law_end_reads_back(self, disk, new);
        law_blocks_stay_whole(self, disk, new, end);
        assert forall|i: u32| (#[trigger] after[i]).len() == 512 by {
            law_zeroed(first, self.block_of(new) + 1, n, i);
        }
        assert forall|c: ClusterId| #[trigger] self.in_volume(c) implies self.entry(after, c)
            == self.entry(claimed, c) && (c != new ==> self.entry(claimed, c) == self.entry(
            disk,
            c,
        )) by {
            self.lemma_entry_place(c);
            law_zeroed(first, self.block_of(new) + 1, n, self.entry_block(c) as u32);
            if c != new {
                self.lemma_tables_apart(new, c);
                law_other_entries_stay(self, disk, new, end, c);
            }
        }
        assert forall|c: ClusterId| #[trigger] self.in_use(disk, c) implies self.in_use(after, c)
            && self.link(after, c) == self.link(disk, c) by {
            assert(self.in_volume(c));
        }
        assert forall|c: ClusterId| #[trigger] self.in_use(after, c) implies match self.link(
            after,
            c,
        ) {
            Link::Next(next) => self.in_use(after, next),
            _ => true,
        } by {
            assert(self.in_volume(c));
            if c != new {
                assert(self.in_use(disk, c));
            }
        }
        self.lemma_stays_sound(disk, after, dir.parent);
    }
}

/// On a sound volume, a directory can be made in one that can be walked through
/// to its end.
pub proof fn law_make_dir_in_reach(volume: FatVolume, disk: Disk, dir: NewDir)
    requires
        volume.is_sound(disk, dir.parent),
        volume.walk_in_reach(disk, dir.parent),
        volume.can_claim(23),
    ensures
        volume.make_dir_in_reach(disk, dir),
{
    law_allocation_in_reach(volume, disk, None, false);
    assert forall|search: HintSearch|
        match #[trigger] volume.allocation(disk, None, false, search) {
            Some(a) => a.volume.publishing_in_reach(a.disk, a.cluster, dir),
            None => true,
        } by {
        if let Some(a) = volume.allocation(disk, None, false, search) {
            lemma_publishing_in_reach(volume, disk, dir, search);
        }
    }
}

/// Once a cluster was allocated for it, a directory can be laid out and named.
proof fn lemma_publishing_in_reach(
    volume: FatVolume,
    disk: Disk,
    dir: NewDir,
    search: HintSearch,
)
    requires
        volume.is_sound(disk, dir.parent),
        volume.walk_in_reach(disk, dir.parent),
        volume.can_claim(23),
        volume.allocation(disk, None, false, search) is Some,
    ensures
        ({
            let a = volume.allocation(disk, None, false, search)->0;
            a.volume.publishing_in_reach(a.disk, a.cluster, dir)
        }),
{
    let a = volume.allocation(disk, None, false, search)->0;
    law_allocated_was_free(volume, disk, None, false, search);
    volume.lemma_first_free(disk, volume.search_start(), volume.end_cluster());
    volume.lemma_first_free(disk, 2, volume.end_cluster());
    volume.lemma_cluster_place(a.cluster);
    assert(a.volume.block_of(a.cluster) == volume.block_of(a.cluster));
    lemma_claims_left(volume, a.disk, a.cluster, search, 22);
    assert forall|now: Timestamp|
        a.volume.naming_in_reach(
            #[trigger] a.volume.with_dir(
                a.disk,
                a.cluster,
                dir.parent,
                dir.attributes,
                now,
                a.volume.further_blocks(),
            ),
            dir,
        ) by {
        let after = a.volume.with_dir(
            a.disk,
            a.cluster,
            dir.parent,
            dir.attributes,
            now,
            a.volume.further_blocks(),
        );
        volume.lemma_new_dir_is_sound(disk, a.cluster, dir, now);
        volume.lemma_same_walks(a.volume, after, dir.parent);
        match dir.long_name {
            Some(name) => {
                if long_name_length(name) is Ok {
                    law_search_in_reach(
                        a.volume,
                        after,
                        dir.parent,
                        FatVolume::slots_for(name),
                    );
                }
            },
            None => {
                law_search_in_reach(a.volume, after, dir.parent, 1);
            },
        }
    }
}

/// A chain of clusters that are in reach can be truncated, if those that become
/// free can be counted.
pub proof fn law_truncation_in_reach(volume: FatVolume, disk: Disk, chain: Seq<ClusterId>)
    requires
        whole_blocks(disk),
        is_chain(volume, disk, chain),
        all_apart(volume, chain),
        volume.free_clusters_count matches Some(count) ==> count + chain.len() <= u32::MAX,
    ensures
        volume.truncation_in_reach(disk, chain[0]),
{
    if chain.len() >= 2 {
        law_truncation(volume, disk, chain, chain[0]);
        assert(volume.link(disk, chain[0]) == Link::Next(chain[1]));
    } else {
        assert(chain.last() == chain[0]);
    }
}

} // verus!
