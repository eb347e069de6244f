//! What a directory shows after an entry was deleted from it.

use crate::block::{BlockCache, BlockDevice, Disk};
use crate::deletion::{deletes, deletion_order, with_deletions, SlotSearch};
use crate::directory::{slot_bytes, DirectorySlot};
use crate::directory_laws::{law_deleted_entry_is_not_seen, no_pending};
use crate::entry::{slot_is_end, slot_is_lfn, slot_is_valid, slot_lfn, ClusterId};
use crate::error::Error;
use crate::iterate::Watcher;
use crate::laws::{
    distinct_slots, law_deleted_slot, law_deletions_leave_others, lemma_deletion_order,
    lemma_deletion_stays, slot_aligned, whole_blocks,
};
use crate::listing::{Gather, Listing, LongNameVisitor, LongNames};
use crate::long_lookup::{bears_name, chain_reads, LongNameFinder, LongSought};
use crate::lookup::{ShortNameFinder, Sought};
use crate::name::csum_of;
use crate::outcomes::lemma_parts_apart;
use crate::placing::law_no_slot_twice;
use crate::table::Link;
use crate::volume::FatVolume;
use crate::walk::law_visit_is_told;
use vstd::prelude::*;

verus! {

/// Does no entry among these slots read like this short name?
pub open spec fn none_reads(disk: Disk, slots: Seq<DirectorySlot>, name: Seq<u8>) -> bool {
    forall|i: int|
        0 <= i < slots.len() ==> {
            let raw = slot_bytes(disk, #[trigger] slots[i]);
            slot_is_valid(raw) ==> raw.take(11) != name
        }
}

impl FatVolume {
    /// The slots of a long name that have been met are the last ones that were
    /// come by.
    proof fn lemma_pending_are_last(self, disk: Disk, slots: Seq<DirectorySlot>, name: Seq<u8>)
        ensures
            ({
                let met = self.met(disk, slots, no_pending(), name);
                let pending = met.pending.slots;
                !met.over ==> pending.len() <= slots.len() && slots.skip(
                    slots.len() - pending.len(),
                ) == pending
            }),
        decreases slots.len(),
    {
        if slots.len() > 0 {
            let front = slots.drop_last();
            self.lemma_pending_are_last(disk, front, name);
            let before = self.met(disk, front, no_pending(), name).pending.slots;
            let met = self.met(disk, slots, no_pending(), name);
            let pending = met.pending.slots;
            if !met.over {
                if pending.len() == 0 {
                    assert(slots.skip(slots.len() as int) =~= pending);
                } else if pending =~= seq![slots.last()] {
                    assert(slots.skip(slots.len() - 1) =~= pending);
                } else {
                    assert(pending == before.push(slots.last()));
                    assert(slots.skip(slots.len() - pending.len()) =~= front.skip(
                        front.len() - before.len(),
                    ).push(slots.last()));
                }
            }
        } else {
            assert(slots.skip(0) =~= Seq::empty());
        }
    }

    /// The slots of an entry that was met stand one behind the other, and the last
    /// one holds the entry.
    proof fn lemma_met_in_a_row(self, disk: Disk, slots: Seq<DirectorySlot>, name: Seq<u8>) -> (front:
        Seq<DirectorySlot>)
        requires
            self.met(disk, slots, no_pending(), name).found is Some,
        ensures
            ({
                let found = self.met(disk, slots, no_pending(), name).found->0;
                &&& found.len() > 0
                &&& (front + found).len() <= slots.len()
                &&& slots.take((front + found).len() as int) == front + found
            }),
        decreases slots.len(),
    {
        let before = slots.drop_last();
        let met = self.met(disk, before, no_pending(), name);
        let found = self.met(disk, slots, no_pending(), name).found->0;
        if met.over {
            let front = self.lemma_met_in_a_row(disk, before, name);
            assert(slots.take((front + found).len() as int) =~= before.take(
                (front + found).len() as int,
            ));
            front
        } else {
            self.lemma_pending_are_last(disk, before, name);
            let pending = met.pending.slots;
            let front = slots.take(slots.len() - found.len());
            if found =~= seq![slots.last()] {
                assert(front + found =~= slots);
            } else {
                assert(found == pending.push(slots.last()));
                assert(before =~= before.take(before.len() - pending.len()) + before.skip(
                    before.len() - pending.len(),
                ));
                assert(front + found =~= slots);
            }
            assert(slots.take(slots.len() as int) =~= slots);
            front
        }
    }

    /// The slots of an entry stand one behind the other in its directory.
    pub proof fn lemma_entry_in_a_row(
        self,
        disk: Disk,
        dir: ClusterId,
        all: Seq<DirectorySlot>,
        end: Link,
        name: Seq<u8>,
        slots: Seq<DirectorySlot>,
    ) -> (parts: (Seq<DirectorySlot>, Seq<DirectorySlot>))
        requires
            self.is_made_of(disk, dir, all, end),
            self.entry_slots(disk, dir, name) matches Some(search) && search.found == Some(slots),
        ensures
            slots.len() > 0,
            all == parts.0 + slots + parts.1,
    {
        let k = self.lemma_steps_of(disk, dir, all, end);
        self.lemma_search_through(disk, dir, all, end, name);
        let front = self.lemma_met_in_a_row(disk, all, name);
        let back = all.skip((front + slots).len() as int);
        assert(front + slots + back =~= all);
        (front, back)
    }

    /// Looking for the slots of an entry leads to what the slots of the directory
    /// tell, one after the other.
    pub proof fn lemma_search_through(
        self,
        disk: Disk,
        dir: ClusterId,
        all: Seq<DirectorySlot>,
        end: Link,
        name: Seq<u8>,
    )
        requires
            self.is_made_of(disk, dir, all, end),
        ensures
            ({
                let met = self.met(disk, all, no_pending(), name);
                self.entry_slots(disk, dir, name) == Some(
                    SlotSearch {
                        found: met.found,
                        end: if met.over {
                            Link::End
                        } else {
                            end
                        },
                    },
                )
            }),
    {
        let k = self.lemma_steps_of(disk, dir, all, end);
        if self.met(disk, all, no_pending(), name).over {
            self.lemma_search_is_over(disk, dir, name, k);
        } else {
            self.lemma_not_met(disk, all, no_pending(), name);
            self.lemma_search_goes_on(disk, self.dir_start(dir), no_pending(), name, k, 1);
            self.lemma_entry_slots(disk, dir, name, k + 1);
        }
    }

    /// Where no entry reads like a name, no slots of it are met.
    proof fn lemma_none_met(self, disk: Disk, slots: Seq<DirectorySlot>, name: Seq<u8>)
        requires
            none_reads(disk, slots, name),
        ensures
            self.met(disk, slots, no_pending(), name).found is None,
        decreases slots.len(),
    {
        if slots.len() > 0 {
            let before = slots.drop_last();
            assert forall|i: int| 0 <= i < before.len() implies {
                let raw = slot_bytes(disk, #[trigger] before[i]);
                slot_is_valid(raw) ==> raw.take(11) != name
            } by {
                assert(before[i] == slots[i]);
            }
            self.lemma_none_met(disk, before, name);
            assert(slots.last() == slots[slots.len() - 1]);
        }
    }

    /// Where no entry reads like a name, it is not found.
    proof fn lemma_none_told(self, disk: Disk, slots: Seq<DirectorySlot>, name: Seq<u8>)
        requires
            none_reads(disk, slots, name),
        ensures
            self.told::<ShortNameFinder>(disk, slots, (Sought { name, found: None })).state.found
                is None,
        decreases slots.len(),
    {
        if slots.len() > 0 {
            let before = slots.drop_last();
            assert forall|i: int| 0 <= i < before.len() implies {
                let raw = slot_bytes(disk, #[trigger] before[i]);
                slot_is_valid(raw) ==> raw.take(11) != name
            } by {
                assert(before[i] == slots[i]);
            }
            self.lemma_none_told(disk, before, name);
            self.lemma_told_nothing(disk, before, Sought { name, found: None });
            assert(slots.last() == slots[slots.len() - 1]);
        }
    }
}

/// Marking slots as deleted leaves every slot as it was, or deleted.
proof fn lemma_deleted_or_same(
    disk: Disk,
    slots: Seq<DirectorySlot>,
    n: nat,
    other: DirectorySlot,
)
    requires
        whole_blocks(disk),
        n <= slots.len(),
        forall|i: int| 0 <= i < slots.len() ==> slot_aligned(#[trigger] slots[i]),
        slot_aligned(other),
    ensures
        ({
            let after = with_deletions(disk, slots, n);
            &&& whole_blocks(after)
            &&& slot_bytes(after, other) == slot_bytes(disk, other) || !slot_is_valid(
                slot_bytes(after, other),
            )
        }),
    decreases n,
{
    if n > 0 {
        lemma_deleted_or_same(disk, slots, (n - 1) as nat, other);
        assert(slot_aligned(slots[n - 1]));
        law_deleted_slot(with_deletions(disk, slots, (n - 1) as nat), slots[n - 1], other);
    }
}

impl FatVolume {
    /// Deleting entries does not change what slots a directory is made of, nor
    /// what comes behind them.
    proof fn lemma_made_of_the_rest(
        self,
        disk: Disk,
        dir: ClusterId,
        all: Seq<DirectorySlot>,
        end: Link,
        order: Seq<DirectorySlot>,
        n: nat,
    )
        requires
            self.is_sound(disk, dir),
            self.is_made_of(disk, dir, all, end),
            n <= order.len(),
            forall|s: DirectorySlot| #[trigger] order.contains(s) ==> all.contains(s),
        ensures
            self.is_made_of(with_deletions(disk, order, n), dir, all, end),
    {
        let k = self.lemma_steps_of(disk, dir, all, end);
        law_no_slot_twice(self, disk, dir, k);
        assert forall|i: int| 0 <= i < order.len() implies self.holds_data(
            disk,
            (#[trigger] order[i]).block.0 as int,
        ) by {
            assert(order.contains(order[i]));
            let j = choose|j: int| 0 <= j < all.len() && all[j] == order[i];
            assert(self.holds_data(disk, all[j].block.0 as int));
        }
        self.lemma_deletions_leave_walk(disk, dir, order, n, k);
        assert(self.walk_ends(with_deletions(disk, order, n), dir, k));
    }
}

/// Once an entry was deleted, no slot reads like its name, unless there was
/// another one; and the directory is made of the same slots.
proof fn lemma_none_left<D: BlockDevice>(
    volume: FatVolume,
    before: BlockCache<D>,
    dir: ClusterId,
    all: Seq<DirectorySlot>,
    name: Seq<u8>,
    slots: Seq<DirectorySlot>,
    after: BlockCache<D>,
)
    requires
        volume.is_sound(before.disk(), dir),
        volume.is_made_of(before.disk(), dir, all, Link::End),
        distinct_slots(all),
        distinct_slots(slots),
        slots.len() > 0,
        forall|i: int| 0 <= i < slots.len() ==> all.contains(#[trigger] slots[i]),
        deletes(before, after, slots, Ok(())),
        forall|i: int|
            0 <= i < all.len() && #[trigger] all[i] != slots.last() ==> {
                let raw = slot_bytes(before.disk(), all[i]);
                slot_is_valid(raw) ==> raw.take(11) != name
            },
    ensures
        none_reads(after.disk(), all, name),
        volume.is_made_of(after.disk(), dir, all, Link::End),
{
    let disk = before.disk();
    lemma_deletion_order(slots);
    let order = deletion_order(slots);
    let n: nat = if after.untroubled(&before) {
        slots.len()
    } else {
        choose|n: nat|
            1 <= n < slots.len() && after.disk() == #[trigger] with_deletions(disk, order, n)
    };
    assert(after.disk() == with_deletions(disk, order, n));
    lemma_deletion_stays(disk, order, n, 0);
    assert forall|i: int| 0 <= i < all.len() implies {
        let raw = slot_bytes(after.disk(), #[trigger] all[i]);
        slot_is_valid(raw) ==> raw.take(11) != name
    } by {
        assert(slot_aligned(all[i]));
        lemma_deleted_or_same(disk, order, n, all[i]);
    }
    assert forall|s: DirectorySlot| #[trigger] order.contains(s) implies all.contains(s) by {
        let j = choose|j: int| 0 <= j < slots.len() && slots[j] == s;
        assert(all.contains(slots[j]));
    }
    volume.lemma_made_of_the_rest(disk, dir, all, Link::End, order, n);
}

/// Once an entry was deleted, its short name is neither found nor deleted again:
/// there is no such name, even if the device reported an error while the long name
/// was tidied away. This is so unless there is another slot that reads like that
/// name.
pub proof fn law_delete_then_find<D: BlockDevice>(
    volume: FatVolume,
    before: BlockCache<D>,
    dir: ClusterId,
    all: Seq<DirectorySlot>,
    name: Seq<u8>,
    slots: Seq<DirectorySlot>,
    after: BlockCache<D>,
)
    requires
        volume.is_sound(before.disk(), dir),
        volume.is_made_of(before.disk(), dir, all, Link::End),
        volume.entry_slots(before.disk(), dir, name) matches Some(search) && search.found == Some(
            slots,
        ),
        deletes(before, after, slots, Ok(())),
        forall|i: int|
            0 <= i < all.len() && #[trigger] all[i] != slots.last() ==> {
                let raw = slot_bytes(before.disk(), all[i]);
                slot_is_valid(raw) ==> raw.take(11) != name
            },
    ensures
        volume.short_name_lookup(after.disk(), dir, name) matches Some(visit) && visit.end
            == Link::End && visit.state.found is None,
        volume.entry_slots(after.disk(), dir, name) == Some(
            SlotSearch { found: None, end: Link::End },
        ),
{
    let disk = before.disk();
    let (front, back) = volume.lemma_entry_in_a_row(disk, dir, all, Link::End, name, slots);
    lemma_parts_apart(volume, disk, dir, front, slots, back, Link::End);
    assert forall|i: int| 0 <= i < slots.len() implies all.contains(#[trigger] slots[i]) by {
        assert(all[front.len() + i] == slots[i]);
    }
    lemma_none_left(volume, before, dir, all, name, slots, after);
    law_visit_is_told::<ShortNameFinder>(
        volume,
        after.disk(),
        dir,
        all,
        Link::End,
        Sought { name, found: None },
    );
    volume.lemma_none_told(after.disk(), all, name);
    volume.lemma_search_through(after.disk(), dir, all, Link::End, name);
    volume.lemma_none_met(after.disk(), all, name);
}

/// Once an entry was deleted, and the device reported no error, everyone who looks
/// through the directory sees the other entries as they were, and nothing else.
pub proof fn law_delete_leaves_others<D: BlockDevice, W: Watcher>(
    volume: FatVolume,
    before: BlockCache<D>,
    dir: ClusterId,
    all: Seq<DirectorySlot>,
    end: Link,
    name: Seq<u8>,
    slots: Seq<DirectorySlot>,
    after: BlockCache<D>,
    state: W::State,
)
    requires
        volume.is_sound(before.disk(), dir),
        volume.is_made_of(before.disk(), dir, all, end),
        volume.entry_slots(before.disk(), dir, name) matches Some(search) && search.found == Some(
            slots,
        ),
        deletes(before, after, slots, Ok(())),
        after.untroubled(&before),
    ensures
        exists|front: Seq<DirectorySlot>, back: Seq<DirectorySlot>|
            {
                &&& all == #[trigger] (front + slots + back)
                &&& volume.visited::<W>(after.disk(), dir, state) matches Some(visit)
                &&& visit.state == volume.told::<W>(before.disk(), front + back, state).state
            },
{
    let disk = before.disk();
    let (front, back) = volume.lemma_entry_in_a_row(disk, dir, all, end, name, slots);
    lemma_parts_apart(volume, disk, dir, front, slots, back, end);
    let k = volume.lemma_steps_of(disk, dir, all, end);
    law_deleted_entry_is_not_seen::<W>(volume, disk, dir, k, front, slots, back, state);
    assert(all == front + slots + back);
}

/// Marking slots as deleted changes no block but those that they stand in.
proof fn lemma_deletions_stay_inside(disk: Disk, slots: Seq<DirectorySlot>, n: nat, block: u32)
    requires
        n <= slots.len(),
        forall|i: int| 0 <= i < slots.len() ==> (#[trigger] slots[i]).block.0 != block,
    ensures
        with_deletions(disk, slots, n)[block] == disk[block],
    decreases n,
{
    if n > 0 {
        lemma_deletions_stay_inside(disk, slots, (n - 1) as nat, block);
        assert(slots[n - 1].block.0 != block);
    }
}

/// Deleting an entry leaves its chain alone, which another entry may name as well:
/// no entry of the table changes, nor any block but those that the slots of the
/// entry stand in. That holds whether or not the device reported an error.
pub proof fn law_delete_leaves_chains<D: BlockDevice>(
    volume: FatVolume,
    before: BlockCache<D>,
    dir: ClusterId,
    all: Seq<DirectorySlot>,
    end: Link,
    name: Seq<u8>,
    slots: Seq<DirectorySlot>,
    after: BlockCache<D>,
    result: Result<(), Error<D::Error>>,
    c: ClusterId,
    block: u32,
)
    requires
        volume.is_sound(before.disk(), dir),
        volume.is_made_of(before.disk(), dir, all, end),
        volume.entry_slots(before.disk(), dir, name) matches Some(search) && search.found == Some(
            slots,
        ),
        deletes(before, after, slots, result),
    ensures
        volume.in_volume(c) ==> volume.entry(after.disk(), c) == volume.entry(before.disk(), c),
        (forall|i: int| 0 <= i < slots.len() ==> (#[trigger] slots[i]).block.0 != block)
            ==> after.disk()[block] == before.disk()[block],
{
    let disk = before.disk();
    let (front, back) = volume.lemma_entry_in_a_row(disk, dir, all, end, name, slots);
    lemma_parts_apart(volume, disk, dir, front, slots, back, end);
    lemma_deletion_order(slots);
    let order = deletion_order(slots);
    let n: nat = if result is Err {
        0
    } else if after.untroubled(&before) {
        slots.len()
    } else {
        choose|n: nat|
            1 <= n < slots.len() && after.disk() == #[trigger] with_deletions(disk, order, n)
    };
    assert(after.disk() == with_deletions(disk, order, n));
    assert forall|i: int| 0 <= i < order.len() implies slots.contains(#[trigger] order[i]) by {
        assert(order.contains(order[i]));
    }
    assert forall|i: int| 0 <= i < order.len() implies volume.holds_data(
        disk,
        (#[trigger] order[i]).block.0 as int,
    ) by {
        let j = choose|j: int| 0 <= j < slots.len() && slots[j] == order[i];
        assert(volume.holds_data(disk, slots[j].block.0 as int));
    }
    if volume.in_volume(c) {
        volume.lemma_deletions_leave_table(disk, order, n, c);
    }
    if forall|i: int| 0 <= i < slots.len() ==> (#[trigger] slots[i]).block.0 != block {
        assert forall|i: int| 0 <= i < order.len() implies (#[trigger] order[i]).block.0
            != block by {
            let j = choose|j: int| 0 <= j < slots.len() && slots[j] == order[i];
            assert(slots[j].block.0 != block);
        }
        lemma_deletions_stay_inside(disk, order, n, block);
    }
}

/// Does this slot hold a piece of a long name with this checksum?
pub open spec fn is_piece(disk: Disk, slot: DirectorySlot, csum: u8) -> bool {
    let raw = slot_bytes(disk, slot);
    slot_is_valid(raw) && slot_is_lfn(raw) && slot_lfn(raw).csum == csum
}

/// Does no entry among these slots have a short name with this checksum?
pub open spec fn none_sums_to(disk: Disk, slots: Seq<DirectorySlot>, csum: u8) -> bool {
    forall|i: int|
        0 <= i < slots.len() ==> {
            let raw = slot_bytes(disk, #[trigger] slots[i]);
            slot_is_valid(raw) && !slot_is_lfn(raw) ==> csum_of(raw.take(11)) != csum
        }
}

impl FatVolume {
    /// The slots of a long name that have been met hold pieces of it.
    proof fn lemma_pending_are_pieces(self, disk: Disk, slots: Seq<DirectorySlot>, name: Seq<u8>)
        ensures
            ({
                let pending = self.met(disk, slots, no_pending(), name).pending;
                forall|i: int|
                    0 <= i < pending.slots.len() ==> is_piece(
                        disk,
                        #[trigger] pending.slots[i],
                        pending.checksum,
                    )
            }),
        decreases slots.len(),
    {
        if slots.len() > 0 {
            self.lemma_pending_are_pieces(disk, slots.drop_last(), name);
        }
    }

    /// The slots of an entry that was met hold the pieces of its long name and,
    /// last of all, the entry.
    proof fn lemma_met_are_pieces(self, disk: Disk, slots: Seq<DirectorySlot>, name: Seq<u8>)
        requires
            self.met(disk, slots, no_pending(), name).found is Some,
        ensures
            ({
                let found = self.met(disk, slots, no_pending(), name).found->0;
                forall|i: int|
                    0 <= i < found.len() - 1 ==> is_piece(
                        disk,
                        #[trigger] found[i],
                        csum_of(name),
                    )
            }),
        decreases slots.len(),
    {
        let before = slots.drop_last();
        let met = self.met(disk, before, no_pending(), name);
        if met.over {
            self.lemma_met_are_pieces(disk, before, name);
        } else {
            self.lemma_pending_are_pieces(disk, before, name);
            let found = self.met(disk, slots, no_pending(), name).found->0;
            assert forall|i: int| 0 <= i < found.len() - 1 implies is_piece(
                disk,
                #[trigger] found[i],
                csum_of(name),
            ) by {
                assert(found[i] == met.pending.slots[i]);
            }
        }
    }
}

/// Once `n` slots of an entry are deleted, with the last of them first, those are:
/// the first `n - 1` and the last.
proof fn lemma_gone(disk: Disk, slots: Seq<DirectorySlot>, n: nat)
    requires
        whole_blocks(disk),
        distinct_slots(slots),
        1 <= n < slots.len(),
    ensures
        forall|i: int|
            0 <= i < slots.len() && (i < n - 1 || i == slots.len() - 1) ==> {
                let raw = slot_bytes(
                    with_deletions(disk, deletion_order(slots), n),
                    #[trigger] slots[i],
                );
                !slot_is_valid(raw) && !slot_is_end(raw)
            },
{
    let order = deletion_order(slots);
    lemma_deletion_order(slots);
    assert forall|i: int|
        0 <= i < slots.len() && (i < n - 1 || i == slots.len() - 1) implies {
        let raw = slot_bytes(with_deletions(disk, order, n), #[trigger] slots[i]);
        !slot_is_valid(raw) && !slot_is_end(raw)
    } by {
        if i == slots.len() - 1 {
            lemma_deletion_stays(disk, order, n, 0);
        } else {
            assert(order[i + 1] == slots[i]);
            lemma_deletion_stays(disk, order, n, i + 1);
        }
    }
}

/// Those slots of an entry that are not deleted yet are as they were.
proof fn lemma_still_there(disk: Disk, slots: Seq<DirectorySlot>, n: nat, i: int)
    requires
        whole_blocks(disk),
        distinct_slots(slots),
        1 <= n,
        n - 1 <= i < slots.len() - 1,
    ensures
        slot_bytes(with_deletions(disk, deletion_order(slots), n), slots[i]) == slot_bytes(
            disk,
            slots[i],
        ),
{
    let order = deletion_order(slots);
    lemma_deletion_order(slots);
    assert(order[i + 1] == slots[i]);
    assert forall|j: int| 0 <= j < n implies slot_aligned(#[trigger] order[j]) && order[j]
        != slots[i] by {}
    law_deletions_leave_others(disk, order, n, slots[i]);
}

/// Slots that do not belong to an entry stay as they were while it is deleted.
proof fn lemma_others_stay(
    disk: Disk,
    slots: Seq<DirectorySlot>,
    n: nat,
    others: Seq<DirectorySlot>,
)
    requires
        whole_blocks(disk),
        distinct_slots(slots),
        0 < slots.len(),
        n <= slots.len(),
        forall|i: int|
            0 <= i < others.len() ==> slot_aligned(#[trigger] others[i]) && !slots.contains(
                others[i],
            ),
    ensures
        forall|i: int|
            0 <= i < others.len() ==> slot_bytes(
                with_deletions(disk, deletion_order(slots), n),
                #[trigger] others[i],
            ) == slot_bytes(disk, others[i]),
{
    assert forall|i: int| 0 <= i < others.len() implies slot_bytes(
        with_deletions(disk, deletion_order(slots), n),
        #[trigger] others[i],
    ) == slot_bytes(disk, others[i]) by {
        lemma_not_in_order(slots, n, others[i]);
        law_deletions_leave_others(disk, deletion_order(slots), n, others[i]);
    }
}

/// Is this what is left on the disk where the tidying of a deleted entry failed? Of
/// its slots, the first `n - 1` and the last are deleted, and the others hold pieces
/// with its checksum. All other slots are as they were.
spec fn is_left_over(
    disk: Disk,
    left: Disk,
    front: Seq<DirectorySlot>,
    slots: Seq<DirectorySlot>,
    back: Seq<DirectorySlot>,
    n: nat,
    csum: u8,
) -> bool {
    &&& 1 <= n < slots.len()
    &&& forall|i: int|
        0 <= i < slots.len() && (i < n - 1 || i == slots.len() - 1) ==> {
            let raw = slot_bytes(left, #[trigger] slots[i]);
            !slot_is_valid(raw) && !slot_is_end(raw)
        }
    &&& forall|i: int| n - 1 <= i < slots.len() - 1 ==> is_piece(left, #[trigger] slots[i], csum)
    &&& forall|i: int|
        0 <= i < front.len() ==> slot_bytes(left, #[trigger] front[i]) == slot_bytes(
            disk,
            front[i],
        )
    &&& forall|i: int|
        0 <= i < back.len() ==> slot_bytes(left, #[trigger] back[i]) == slot_bytes(disk, back[i])
}

/// A directory is made of the same slots while one of its entries is deleted.
proof fn lemma_made_of_the_same(
    volume: FatVolume,
    disk: Disk,
    dir: ClusterId,
    front: Seq<DirectorySlot>,
    slots: Seq<DirectorySlot>,
    back: Seq<DirectorySlot>,
    n: nat,
)
    requires
        volume.is_sound(disk, dir),
        volume.is_made_of(disk, dir, front + slots + back, Link::End),
        distinct_slots(slots),
        0 < slots.len(),
        n <= slots.len(),
    ensures
        volume.is_made_of(
            with_deletions(disk, deletion_order(slots), n),
            dir,
            front + slots + back,
            Link::End,
        ),
{
    let all = front + slots + back;
    let order = deletion_order(slots);
    lemma_deletion_order(slots);
    assert forall|s: DirectorySlot| #[trigger] order.contains(s) implies all.contains(s) by {
        let j = choose|j: int| 0 <= j < slots.len() && slots[j] == s;
        assert(all[front.len() + j] == s);
    }
    volume.lemma_made_of_the_rest(disk, dir, all, Link::End, order, n);
}

/// Those slots of an entry that are not deleted yet hold pieces of its name.
proof fn lemma_pieces_left(
    volume: FatVolume,
    disk: Disk,
    all: Seq<DirectorySlot>,
    slots: Seq<DirectorySlot>,
    name: Seq<u8>,
    n: nat,
)
    requires
        whole_blocks(disk),
        distinct_slots(slots),
        volume.met(disk, all, no_pending(), name).found == Some(slots),
        1 <= n < slots.len(),
    ensures
        forall|i: int|
            n - 1 <= i < slots.len() - 1 ==> is_piece(
                with_deletions(disk, deletion_order(slots), n),
                #[trigger] slots[i],
                csum_of(name),
            ),
{
    volume.lemma_met_are_pieces(disk, all, name);
    let found = volume.met(disk, all, no_pending(), name).found->0;
    assert forall|i: int| n - 1 <= i < slots.len() - 1 implies is_piece(
        with_deletions(disk, deletion_order(slots), n),
        #[trigger] slots[i],
        csum_of(name),
    ) by {
        assert(is_piece(disk, found[i], csum_of(name)));
        lemma_still_there(disk, slots, n, i);
    }
}

/// While an entry is deleted, some pieces of its name are left.
proof fn lemma_left_on(
    volume: FatVolume,
    disk: Disk,
    dir: ClusterId,
    front: Seq<DirectorySlot>,
    slots: Seq<DirectorySlot>,
    back: Seq<DirectorySlot>,
    name: Seq<u8>,
    n: nat,
)
    requires
        volume.is_sound(disk, dir),
        volume.is_made_of(disk, dir, front + slots + back, Link::End),
        volume.met(disk, front + slots + back, no_pending(), name).found == Some(slots),
        1 <= n < slots.len(),
    ensures
        is_left_over(
            disk,
            with_deletions(disk, deletion_order(slots), n),
            front,
            slots,
            back,
            n,
            csum_of(name),
        ),
{
    lemma_parts_apart(volume, disk, dir, front, slots, back, Link::End);
    lemma_gone(disk, slots, n);
    lemma_pieces_left(volume, disk, front + slots + back, slots, name, n);
    lemma_others_stay(disk, slots, n, front);
    lemma_others_stay(disk, slots, n, back);
}

/// Where the tidying of a deleted entry failed, some pieces of its name are left.
proof fn lemma_left_over<D: BlockDevice>(
    volume: FatVolume,
    before: BlockCache<D>,
    dir: ClusterId,
    front: Seq<DirectorySlot>,
    slots: Seq<DirectorySlot>,
    back: Seq<DirectorySlot>,
    name: Seq<u8>,
    after: BlockCache<D>,
) -> (n: nat)
    requires
        volume.is_sound(before.disk(), dir),
        volume.is_made_of(before.disk(), dir, front + slots + back, Link::End),
        volume.entry_slots(before.disk(), dir, name) matches Some(search) && search.found == Some(
            slots,
        ),
        deletes(before, after, slots, Ok(())),
        !after.untroubled(&before),
    ensures
        is_left_over(before.disk(), after.disk(), front, slots, back, n, csum_of(name)),
        volume.is_made_of(after.disk(), dir, front + slots + back, Link::End),
{
    let disk = before.disk();
    let order = deletion_order(slots);
    volume.lemma_search_through(disk, dir, front + slots + back, Link::End, name);
    let n = choose|n: nat|
        1 <= n < slots.len() && after.disk() == #[trigger] with_deletions(disk, order, n);
    assert(1 <= n < slots.len() && after.disk() == with_deletions(disk, order, n));
    lemma_left_on(volume, disk, dir, front, slots, back, name, n);
    assert(volume.is_made_of(after.disk(), dir, front + slots + back, Link::End)) by {
        lemma_parts_apart(volume, disk, dir, front, slots, back, Link::End);
        lemma_made_of_the_same(volume, disk, dir, front, slots, back, n);
    }
    n
}

/// A slot that is none of those to be deleted is none of the first of them.
proof fn lemma_not_in_order(slots: Seq<DirectorySlot>, n: nat, other: DirectorySlot)
    requires
        slots.len() > 0,
        distinct_slots(slots),
        !slots.contains(other),
        n <= slots.len(),
    ensures
        forall|i: int|
            0 <= i < n ==> slot_aligned(#[trigger] deletion_order(slots)[i]) && deletion_order(
                slots,
            )[i] != other,
{
    let order = deletion_order(slots);
    lemma_deletion_order(slots);
    assert forall|i: int| 0 <= i < n implies slot_aligned(#[trigger] order[i]) && order[i]
        != other by {
        assert(order.contains(order[i]));
    }
}

/// Do two who look for the same long name know the same, but for pieces that are of
/// no use to an entry with another checksum than `csum`?
spec fn know_the_same(a: LongSought, b: LongSought, csum: u8) -> bool {
    let more = a.pieces.len() - b.pieces.len();
    &&& a.name == b.name
    &&& a.fold_case == b.fold_case
    &&& a.found == b.found
    &&& a.pieces == b.pieces || {
        &&& more > 0
        &&& a.pieces.skip(more) == b.pieces
        &&& a.pieces[more - 1].csum == csum
    }
}

/// Pieces with another checksum in front of those of an entry do not matter.
proof fn lemma_bears_the_same(a: LongSought, b: LongSought, csum: u8, short_name: Seq<u8>)
    requires
        know_the_same(a, b, csum),
        csum_of(short_name) != csum,
    ensures
        bears_name(a.pieces, short_name, a.name, a.fold_case) == bears_name(
            b.pieces,
            short_name,
            b.name,
            b.fold_case,
        ),
{
    let more = a.pieces.len() - b.pieces.len();
    let sum = csum_of(short_name);
    if a.pieces != b.pieces {
        if bears_name(a.pieces, short_name, a.name, a.fold_case) {
            let n = choose|n: int|
                0 <= n <= a.pieces.len() && chain_reads(
                    #[trigger] a.pieces.skip(n),
                    sum,
                    a.name,
                    a.fold_case,
                );
            let chain = a.pieces.skip(n);
            if n < more {
                assert(chain[more - 1 - n] == a.pieces[more - 1]);
            }
            assert(b.pieces.skip(n - more) =~= chain);
            assert(chain_reads(b.pieces.skip(n - more), sum, b.name, b.fold_case));
        }
        if bears_name(b.pieces, short_name, b.name, b.fold_case) {
            let n = choose|n: int|
                0 <= n <= b.pieces.len() && chain_reads(
                    #[trigger] b.pieces.skip(n),
                    sum,
                    b.name,
                    b.fold_case,
                );
            assert(a.pieces.skip(n + more) =~= b.pieces.skip(n));
            assert(chain_reads(a.pieces.skip(n + more), sum, a.name, a.fold_case));
        }
    }
}

impl FatVolume {
    /// Two who know the same, but for pieces with another checksum, find the same.
    proof fn lemma_find_the_same(
        self,
        disk: Disk,
        slots: Seq<DirectorySlot>,
        a: LongSought,
        b: LongSought,
        csum: u8,
    )
        requires
            know_the_same(a, b, csum),
            none_sums_to(disk, slots, csum),
        ensures
            ({
                let x = self.told::<LongNameFinder>(disk, slots, a);
                let y = self.told::<LongNameFinder>(disk, slots, b);
                x.over == y.over && know_the_same(x.state, y.state, csum)
            }),
        decreases slots.len(),
    {
        if slots.len() > 0 {
            let before = slots.drop_last();
            assert forall|i: int| 0 <= i < before.len() implies {
                let raw = slot_bytes(disk, #[trigger] before[i]);
                slot_is_valid(raw) && !slot_is_lfn(raw) ==> csum_of(raw.take(11)) != csum
            } by {
                assert(before[i] == slots[i]);
            }
            self.lemma_find_the_same(disk, before, a, b, csum);
            let x = self.told::<LongNameFinder>(disk, before, a);
            let y = self.told::<LongNameFinder>(disk, before, b);
            let raw = slot_bytes(disk, slots.last());
            assert(slots.last() == slots[slots.len() - 1]);
            if !x.over && slot_is_valid(raw) && !slot_is_end(raw) {
                if slot_is_lfn(raw) {
                    let piece = slot_lfn(raw);
                    let (p, q) = (x.state.pieces.push(piece), y.state.pieces.push(piece));
                    let more = p.len() - q.len();
                    if x.state.pieces != y.state.pieces {
                        assert(p.skip(more) =~= q);
                        assert(p[more - 1] == x.state.pieces[more - 1]);
                    }
                } else {
                    lemma_bears_the_same(x.state, y.state, csum, raw.take(11));
                }
            }
        }
    }

    /// Someone who looks for a long name takes note of the pieces in these slots.
    proof fn lemma_notes_pieces(
        self,
        disk: Disk,
        slots: Seq<DirectorySlot>,
        state: LongSought,
        csum: u8,
    )
        requires
            forall|i: int| 0 <= i < slots.len() ==> is_piece(disk, #[trigger] slots[i], csum),
        ensures
            ({
                let told = self.told::<LongNameFinder>(disk, slots, state);
                &&& !told.over
                &&& told.state.name == state.name
                &&& told.state.fold_case == state.fold_case
                &&& told.state.found == state.found
                &&& told.state.pieces.len() == state.pieces.len() + slots.len()
                &&& slots.len() > 0 ==> told.state.pieces.last().csum == csum
            }),
        decreases slots.len(),
    {
        if slots.len() > 0 {
            let before = slots.drop_last();
            assert forall|i: int| 0 <= i < before.len() implies is_piece(
                disk,
                #[trigger] before[i],
                csum,
            ) by {
                assert(before[i] == slots[i]);
            }
            self.lemma_notes_pieces(disk, before, state, csum);
            assert(is_piece(disk, slots[slots.len() - 1], csum));
        }
    }

    /// Among slots of which the first `n - 1` and the last are deleted, only the
    /// others tell something.
    proof fn lemma_told_between<W: Watcher>(
        self,
        disk: Disk,
        slots: Seq<DirectorySlot>,
        n: nat,
        state: W::State,
    )
        requires
            1 <= n < slots.len(),
            forall|i: int|
                0 <= i < slots.len() && (i < n - 1 || i == slots.len() - 1) ==> {
                    let raw = slot_bytes(disk, #[trigger] slots[i]);
                    !slot_is_valid(raw) && !slot_is_end(raw)
                },
        ensures
            self.told::<W>(disk, slots, state) == self.told::<W>(
                disk,
                slots.subrange(n - 1, slots.len() - 1),
                state,
            ),
    {
        let gone = slots.take(n - 1);
        let between = slots.subrange(n - 1, slots.len() - 1);
        let last = seq![slots.last()];
        assert(slots =~= gone + between + last);
        assert forall|i: int| 0 <= i < gone.len() implies {
            let raw = slot_bytes(disk, #[trigger] gone[i]);
            !slot_is_valid(raw) && !slot_is_end(raw)
        } by {
            assert(gone[i] == slots[i]);
        }
        assert(last[0] == slots[slots.len() - 1]);
        self.lemma_told_concat::<W>(disk, gone + between, last, state);
        self.lemma_told_concat::<W>(disk, gone, between, state);
        self.lemma_told_deleted::<W>(disk, gone, state);
        self.lemma_told_deleted::<W>(
            disk,
            last,
            self.told::<W>(disk, between, state).state,
        );
    }
}

/// Where an entry was deleted, and the device reported an error while its long name
/// was tidied away, its long name is not found: a lookup finds what there is among
/// the other entries, in front of it and behind it, and nothing else. This is so
/// where no other entry behind it has its checksum.
pub proof fn law_failed_tidying_hides_name<D: BlockDevice>(
    volume: FatVolume,
    before: BlockCache<D>,
    dir: ClusterId,
    front: Seq<DirectorySlot>,
    slots: Seq<DirectorySlot>,
    back: Seq<DirectorySlot>,
    name: Seq<u8>,
    after: BlockCache<D>,
    sought: Seq<char>,
    fold_case: bool,
)
    requires
        volume.is_sound(before.disk(), dir),
        volume.is_made_of(before.disk(), dir, front + slots + back, Link::End),
        volume.entry_slots(before.disk(), dir, name) matches Some(search) && search.found == Some(
            slots,
        ),
        deletes(before, after, slots, Ok(())),
        !after.untroubled(&before),
        none_sums_to(before.disk(), back, csum_of(name)),
    ensures
        ({
            let first = LongSought::start(sought, fold_case);
            let ahead = volume.told::<LongNameFinder>(before.disk(), front, first);
            let behind = volume.told::<LongNameFinder>(before.disk(), back, first);
            &&& volume.long_name_lookup(after.disk(), dir, sought, fold_case) matches Some(visit)
            &&& visit.end == Link::End
            &&& visit.state.found == if ahead.over {
                ahead.state.found
            } else {
                behind.state.found
            }
        }),
{
    let disk = before.disk();
    let left = after.disk();
    let csum = csum_of(name);
    let first = LongSought::start(sought, fold_case);
    let n = lemma_left_over(volume, before, dir, front, slots, back, name, after);
    let all = front + slots + back;
    law_visit_is_told::<LongNameFinder>(volume, left, dir, all, Link::End, first);
    volume.lemma_told_concat::<LongNameFinder>(left, front + slots, back, first);
    volume.lemma_told_concat::<LongNameFinder>(left, front, slots, first);
    volume.lemma_told_same::<LongNameFinder>(disk, left, front, first);
    let ahead = volume.told::<LongNameFinder>(left, front, first);
    if !ahead.over {
        let between = slots.subrange(n - 1, slots.len() - 1);
        assert forall|i: int| 0 <= i < between.len() implies is_piece(
            left,
            #[trigger] between[i],
            csum,
        ) by {
            assert(between[i] == slots[n - 1 + i]);
        }
        volume.lemma_told_between::<LongNameFinder>(left, slots, n, ahead.state);
        volume.lemma_notes_pieces(left, between, ahead.state, csum);
        volume.lemma_looks_on(disk, front, first);
        volume.lemma_told_name(disk, front, first);
        let noted = volume.told::<LongNameFinder>(left, between, ahead.state).state;
        assert(noted.pieces.skip(noted.pieces.len() as int) =~= first.pieces);
        assert(know_the_same(noted, first, csum));
        volume.lemma_told_same::<LongNameFinder>(disk, left, back, noted);
        volume.lemma_find_the_same(disk, back, noted, first, csum);
    }
}

/// Has a listing gathered nothing, or pieces of a name with this checksum?
spec fn gathered_with(gather: Gather, csum: u8) -> bool {
    match gather {
        Gather::Waiting => true,
        Gather::Remaining { csum: c, .. } => c == csum,
        Gather::Complete { csum: c } => c == csum,
    }
}

/// Have two listings shown the same, and do they know the same of the entry to come,
/// but for pieces that are of no use to an entry with another checksum than `csum`?
spec fn list_the_same<S>(a: Listing<S>, b: Listing<S>, csum: u8) -> bool {
    &&& a.seen == b.seen
    &&& a.buffer.capacity == b.buffer.capacity
    &&& {
        ||| a.gather == b.gather && a.buffer == b.buffer
        ||| b.gather is Waiting && gathered_with(a.gather, csum)
    }
}

impl FatVolume {
    /// Two listings that know the same, but for pieces with another checksum, show
    /// the same.
    proof fn lemma_show_the_same<V: LongNameVisitor>(
        self,
        disk: Disk,
        slots: Seq<DirectorySlot>,
        a: Listing<V::State>,
        b: Listing<V::State>,
        csum: u8,
    )
        requires
            list_the_same(a, b, csum),
            none_sums_to(disk, slots, csum),
        ensures
            ({
                let x = self.told::<LongNames<V>>(disk, slots, a);
                let y = self.told::<LongNames<V>>(disk, slots, b);
                x.over == y.over && list_the_same(x.state, y.state, csum)
            }),
        decreases slots.len(),
    {
        if slots.len() > 0 {
            let before = slots.drop_last();
            assert forall|i: int| 0 <= i < before.len() implies {
                let raw = slot_bytes(disk, #[trigger] before[i]);
                slot_is_valid(raw) && !slot_is_lfn(raw) ==> csum_of(raw.take(11)) != csum
            } by {
                assert(before[i] == slots[i]);
            }
            self.lemma_show_the_same::<V>(disk, before, a, b, csum);
            assert(slots.last() == slots[slots.len() - 1]);
        }
    }

    /// From these slots a listing gathers a name with the checksum of the pieces that
    /// they hold, or the rest of a name that it had begun to gather.
    proof fn lemma_gathers_pieces<V: LongNameVisitor>(
        self,
        disk: Disk,
        slots: Seq<DirectorySlot>,
        state: Listing<V::State>,
        csum: u8,
    )
        requires
            forall|i: int| 0 <= i < slots.len() ==> is_piece(disk, #[trigger] slots[i], csum),
        ensures
            ({
                let told = self.told::<LongNames<V>>(disk, slots, state);
                &&& !told.over
                &&& told.state.seen == state.seen
                &&& told.state.buffer.capacity == state.buffer.capacity
                &&& if slots.len() == 0 {
                    told.state.gather == state.gather
                } else {
                    gathered_with(told.state.gather, csum) || gathered_with(
                        told.state.gather,
                        state.gather->Remaining_csum,
                    ) && state.gather is Remaining
                }
            }),
        decreases slots.len(),
    {
        if slots.len() > 0 {
            let before = slots.drop_last();
            assert forall|i: int| 0 <= i < before.len() implies is_piece(
                disk,
                #[trigger] before[i],
                csum,
            ) by {
                assert(before[i] == slots[i]);
            }
            self.lemma_gathers_pieces::<V>(disk, before, state, csum);
            assert(is_piece(disk, slots[slots.len() - 1], csum));
        }
    }
}

/// Where an entry was deleted, and the device reported an error while its long name
/// was tidied away, its long name is not listed: a listing shows the other entries,
/// each with the long name that it has, and nothing else. This is so where no entry
/// behind it has its checksum, nor that of a name which begins in front of it and is
/// left unfinished there.
pub proof fn law_failed_tidying_lists_others<D: BlockDevice, V: LongNameVisitor>(
    volume: FatVolume,
    before: BlockCache<D>,
    dir: ClusterId,
    front: Seq<DirectorySlot>,
    slots: Seq<DirectorySlot>,
    back: Seq<DirectorySlot>,
    name: Seq<u8>,
    after: BlockCache<D>,
    first: Listing<V::State>,
)
    requires
        volume.is_sound(before.disk(), dir),
        volume.is_made_of(before.disk(), dir, front + slots + back, Link::End),
        volume.entry_slots(before.disk(), dir, name) matches Some(search) && search.found == Some(
            slots,
        ),
        deletes(before, after, slots, Ok(())),
        !after.untroubled(&before),
        none_sums_to(before.disk(), back, csum_of(name)),
        volume.told::<LongNames<V>>(before.disk(), front, first).state.gather
            matches Gather::Remaining { csum, .. } ==> none_sums_to(before.disk(), back, csum),
    ensures
        ({
            let ahead = volume.told::<LongNames<V>>(before.disk(), front, first);
            let behind = volume.told::<LongNames<V>>(
                before.disk(),
                back,
                (Listing { gather: Gather::Waiting, ..ahead.state }),
            );
            &&& volume.visited::<LongNames<V>>(after.disk(), dir, first) matches Some(visit)
            &&& visit.end == Link::End
            &&& visit.state.seen == if ahead.over {
                ahead.state.seen
            } else {
                behind.state.seen
            }
        }),
{
    let disk = before.disk();
    let left = after.disk();
    let csum = csum_of(name);
    let n = lemma_left_over(volume, before, dir, front, slots, back, name, after);
    let all = front + slots + back;
    law_visit_is_told::<LongNames<V>>(volume, left, dir, all, Link::End, first);
    volume.lemma_told_concat::<LongNames<V>>(left, front + slots, back, first);
    volume.lemma_told_concat::<LongNames<V>>(left, front, slots, first);
    volume.lemma_told_same::<LongNames<V>>(disk, left, front, first);
    let ahead = volume.told::<LongNames<V>>(left, front, first);
    if !ahead.over {
        let between = slots.subrange(n - 1, slots.len() - 1);
        assert forall|i: int| 0 <= i < between.len() implies is_piece(
            left,
            #[trigger] between[i],
            csum,
        ) by {
            assert(between[i] == slots[n - 1 + i]);
        }
        volume.lemma_told_between::<LongNames<V>>(left, slots, n, ahead.state);
        volume.lemma_gathers_pieces::<V>(left, between, ahead.state, csum);
        let fresh = Listing { gather: Gather::Waiting, ..ahead.state };
        let met = volume.told::<LongNames<V>>(left, between, ahead.state).state;
        volume.lemma_told_same::<LongNames<V>>(disk, left, back, met);
        if gathered_with(met.gather, csum) {
            volume.lemma_show_the_same::<V>(disk, back, met, fresh, csum);
        } else {
            let begun = ahead.state.gather->Remaining_csum;
            volume.lemma_show_the_same::<V>(disk, back, met, fresh, begun);
        }
    }
}

} // verus!
