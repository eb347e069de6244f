//! Which slots the deletion of an entry is about.

use crate::block::Disk;
use crate::deletion::{with_deletions, Pending, SlotSearch};
use crate::directory::{slot_bytes, DirectorySlot};
use crate::directory_laws::no_pending;
use crate::entry::{slot_lfn, ClusterId};
use crate::laws::{slot_aligned, whole_blocks};
use crate::name::csum_of;
use crate::rows::{
    all_aligned, is_entry, is_live, is_named, is_unused, lemma_named, lemma_slot_bytes, looked_at,
    slot_byte,
};
use crate::table::Link;
use crate::volume::FatVolume;
use vstd::prelude::*;

verus! {

/// Do these slots hold pieces of one long name, of which `rest` are yet to come? The
/// first has the mark of a beginning, they are numbered downwards, from twenty at
/// most, and all of them have this checksum.
pub open spec fn holds_pieces(disk: Disk, run: Seq<DirectorySlot>, rest: int, csum: u8) -> bool {
    &&& run.len() > 0
    &&& run.len() + rest <= 20
    &&& forall|i: int|
        0 <= i < run.len() ==> {
            &&& is_live(disk, #[trigger] run[i])
            &&& !is_entry(disk, run[i])
            &&& slot_byte(disk, run[i], 0) as int / 0x40 % 2 == if i == 0 {
                1int
            } else {
                0
            }
            &&& slot_byte(disk, run[i], 0) as int % 0x20 == run.len() - i + rest
            &&& slot_byte(disk, run[i], 13) == csum
        }
}

impl FatVolume {
    /// What was met of a long name are pieces of one.
    proof fn lemma_pending_holds_pieces(self, disk: Disk, slots: Seq<DirectorySlot>, name: Seq<u8>)
        requires
            whole_blocks(disk),
            all_aligned(slots),
            !self.met(disk, slots, no_pending(), name).over,
        ensures
            ({
                let pending = self.met(disk, slots, no_pending(), name).pending;
                if pending.active {
                    &&& pending.slots.len() <= slots.len()
                    &&& slots.skip(slots.len() - pending.slots.len()) == pending.slots
                    &&& holds_pieces(
                        disk,
                        pending.slots,
                        pending.next as int,
                        pending.checksum,
                    )
                } else {
                    pending.slots.len() == 0
                }
            }),
        decreases slots.len(),
    {
        if slots.len() > 0 {
            let front = slots.drop_last();
            let slot = slots.last();
            assert(slot == slots[slots.len() - 1]);
            assert forall|i: int| 0 <= i < front.len() implies slot_aligned(
                #[trigger] front[i],
            ) by {
                assert(front[i] == slots[i]);
            }
            self.lemma_pending_holds_pieces(disk, front, name);
            lemma_slot_bytes(disk, slot);
            let raw = slot_bytes(disk, slot);
            let before = self.met(disk, front, no_pending(), name).pending;
            let pending = self.met(disk, slots, no_pending(), name).pending;
            assert(raw[0] == slot_byte(disk, slot, 0));
            assert(raw[13] == slot_byte(disk, slot, 13));
            if pending.active {
                let piece = slot_lfn(raw);
                if piece.is_start && 1 <= piece.sequence <= 20 {
                    assert(slots.skip(slots.len() - 1) =~= seq![slot]);
                } else {
                    assert(pending.slots == before.slots.push(slot));
                    assert(slots.skip(slots.len() - pending.slots.len()) =~= front.skip(
                        front.len() - before.slots.len(),
                    ).push(slot));
                    assert forall|i: int|
                        0 <= i < before.slots.len() implies #[trigger] pending.slots[i]
                        == before.slots[i] by {}
                }
            }
        }
    }

    /// Pieces of one long name are met.
    proof fn lemma_pieces_are_pending(
        self,
        disk: Disk,
        front: Seq<DirectorySlot>,
        run: Seq<DirectorySlot>,
        rest: int,
        csum: u8,
        name: Seq<u8>,
    )
        requires
            whole_blocks(disk),
            all_aligned(front + run),
            !self.met(disk, front + run, no_pending(), name).over,
            rest >= 0,
            holds_pieces(disk, run, rest, csum),
        ensures
            self.met(disk, front + run, no_pending(), name).pending == (Pending {
                slots: run,
                checksum: csum,
                next: rest as u8,
                active: true,
            }),
        decreases run.len(),
    {
        let all = front + run;
        let before = run.drop_last();
        let slot = run[run.len() - 1];
        assert(all.last() == slot);
        assert(all.drop_last() =~= front + before);
        assert(all[all.len() - 1] == slot);
        lemma_slot_bytes(disk, slot);
        let raw = slot_bytes(disk, slot);
        assert(raw[0] == slot_byte(disk, slot, 0));
        assert(raw[13] == slot_byte(disk, slot, 13));
        if run.len() > 1 {
            assert forall|i: int| 0 <= i < before.len() implies {
                &&& is_live(disk, #[trigger] before[i])
                &&& !is_entry(disk, before[i])
                &&& slot_byte(disk, before[i], 0) as int / 0x40 % 2 == if i == 0 {
                    1int
                } else {
                    0
                }
                &&& slot_byte(disk, before[i], 0) as int % 0x20 == before.len() - i + rest + 1
                &&& slot_byte(disk, before[i], 13) == csum
            } by {
                assert(before[i] == run[i]);
            }
            assert forall|i: int| 0 <= i < (front + before).len() implies slot_aligned(
                #[trigger] (front + before)[i],
            ) by {
                assert((front + before)[i] == all[i]);
            }
            self.lemma_pieces_are_pending(disk, front, before, rest + 1, csum, name);
            assert(before.push(slot) =~= run);
        } else {
            assert(run =~= seq![slot]);
        }
    }

    /// A search for an entry goes on up to the entry.
    proof fn lemma_search_not_over(self, disk: Disk, slots: Seq<DirectorySlot>, name: Seq<u8>)
        requires
            whole_blocks(disk),
            all_aligned(slots),
            forall|j: int| 0 <= j < slots.len() ==> !is_unused(disk, #[trigger] slots[j]),
            forall|j: int|
                0 <= j < slots.len() && is_entry(disk, #[trigger] slots[j]) ==> !is_named(
                    disk,
                    slots[j],
                    name,
                ),
        ensures
            !self.met(disk, slots, no_pending(), name).over,
            self.met(disk, slots, no_pending(), name).found is None,
        decreases slots.len(),
    {
        if slots.len() > 0 {
            let front = slots.drop_last();
            assert forall|i: int| 0 <= i < front.len() implies slot_aligned(#[trigger] front[i])
                && !is_unused(disk, front[i]) && (is_entry(disk, front[i]) ==> !is_named(
                disk,
                front[i],
                name,
            )) by {
                assert(front[i] == slots[i]);
            }
            self.lemma_search_not_over(disk, front, name);
            let slot = slots[slots.len() - 1];
            lemma_slot_bytes(disk, slot);
            lemma_named(disk, slot, name);
        }
    }
}

/// Deleting an entry by its short name is about the first entry of that name, and
/// about all the pieces of its long name: those that stand right in front of it, all of
/// them, and with its checksum. Where the slots in front of it are not that, it is
/// about the slot of the entry alone.
pub proof fn law_deletion_is_about_one_entry(
    volume: FatVolume,
    disk: Disk,
    dir: ClusterId,
    slots: Seq<DirectorySlot>,
    end: Link,
    name: Seq<u8>,
    i: int,
)
    requires
        whole_blocks(disk),
        volume.is_made_of(disk, dir, slots, end),
        0 <= i < slots.len(),
        forall|j: int| 0 <= j <= i ==> !is_unused(disk, #[trigger] slots[j]),
        forall|j: int|
            0 <= j < i && is_entry(disk, #[trigger] slots[j]) ==> !is_named(disk, slots[j], name),
        is_entry(disk, slots[i]),
        is_named(disk, slots[i], name),
    ensures
        volume.entry_slots(disk, dir, name) is Some,
        (volume.entry_slots(disk, dir, name)->0).end == Link::End,
        forall|a: int|
            0 <= a < i && holds_pieces(disk, #[trigger] slots.subrange(a, i), 0, csum_of(name))
                ==> (volume.entry_slots(disk, dir, name)->0).found == Some(
                slots.subrange(a, i + 1),
            ),
        (forall|a: int|
            0 <= a < i ==> !holds_pieces(disk, #[trigger] slots.subrange(a, i), 0, csum_of(name)))
            ==> (volume.entry_slots(disk, dir, name)->0).found == Some(seq![slots[i]]),
{
    volume.lemma_made_of_aligned(disk, dir, slots, end);
    volume.lemma_search_through(disk, dir, slots, end, name);
    let front = slots.take(i);
    let back = slots.skip(i + 1);
    assert forall|j: int| 0 <= j < front.len() implies slot_aligned(#[trigger] front[j])
        && !is_unused(disk, front[j]) && (is_entry(disk, front[j]) ==> !is_named(
        disk,
        front[j],
        name,
    )) by {
        assert(front[j] == slots[j]);
    }
    volume.lemma_search_not_over(disk, front, name);
    volume.lemma_pending_holds_pieces(disk, front, name);
    let pending = volume.met(disk, front, no_pending(), name).pending;
    let met = front.push(slots[i]);
    assert(met.drop_last() =~= front);
    lemma_slot_bytes(disk, slots[i]);
    lemma_named(disk, slots[i], name);
    assert(slots =~= met + back);
    volume.lemma_met_concat(disk, met, back, no_pending(), name);
    assert(volume.met(disk, slots, no_pending(), name).found == Some(
        pending.taken_by(name, slots[i]),
    ));
    assert forall|a: int|
        0 <= a < i && holds_pieces(
            disk,
            #[trigger] slots.subrange(a, i),
            0,
            csum_of(name),
        ) implies pending.taken_by(name, slots[i]) == slots.subrange(a, i + 1) by {
        let run = slots.subrange(a, i);
        assert(front =~= slots.take(a) + run);
        volume.lemma_pieces_are_pending(disk, slots.take(a), run, 0, csum_of(name), name);
        assert(run.push(slots[i]) =~= slots.subrange(a, i + 1));
    }
    if forall|a: int|
        0 <= a < i ==> !holds_pieces(disk, #[trigger] slots.subrange(a, i), 0, csum_of(name)) {
        if pending.active && pending.next == 0 && pending.checksum == csum_of(name) {
            let a = i - pending.slots.len();
            assert(slots.subrange(a, i) =~= front.skip(a));
            assert(false);
        }
    }
}

/// There is nothing to delete where no entry that is looked at has the short name.
pub proof fn law_nothing_is_deleted_without_an_entry(
    volume: FatVolume,
    disk: Disk,
    dir: ClusterId,
    slots: Seq<DirectorySlot>,
    end: Link,
    n: int,
    name: Seq<u8>,
)
    requires
        whole_blocks(disk),
        volume.is_made_of(disk, dir, slots, end),
        looked_at(disk, slots, n),
        forall|j: int|
            0 <= j < n && is_entry(disk, #[trigger] slots[j]) ==> !is_named(disk, slots[j], name),
    ensures
        volume.entry_slots(disk, dir, name) == Some(
            SlotSearch {
                found: None,
                end: if n < slots.len() {
                    Link::End
                } else {
                    end
                },
            },
        ),
{
    volume.lemma_made_of_aligned(disk, dir, slots, end);
    volume.lemma_search_through(disk, dir, slots, end, name);
    let front = slots.take(n);
    assert forall|j: int| 0 <= j < front.len() implies slot_aligned(#[trigger] front[j])
        && !is_unused(disk, front[j]) && (is_entry(disk, front[j]) ==> !is_named(
        disk,
        front[j],
        name,
    )) by {
        assert(front[j] == slots[j]);
    }
    volume.lemma_search_not_over(disk, front, name);
    if n < slots.len() {
        let met = front.push(slots[n]);
        assert(met.drop_last() =~= front);
        lemma_slot_bytes(disk, slots[n]);
        assert(slots =~= met + slots.skip(n + 1));
        volume.lemma_met_concat(disk, met, slots.skip(n + 1), no_pending(), name);
    } else {
        assert(front =~= slots);
    }
}

/// Marking slots as deleted writes one byte of each of them, and changes nothing else
/// on the disk.
pub proof fn law_deletion_marks_one_byte_of_each_slot(
    disk: Disk,
    slots: Seq<DirectorySlot>,
    n: nat,
    block: u32,
    i: int,
)
    requires
        whole_blocks(disk),
        n <= slots.len(),
        all_aligned(slots),
        0 <= i < 512,
    ensures
        with_deletions(disk, slots, n)[block].len() == 512,
        with_deletions(disk, slots, n)[block][i] == if exists|j: int|
            0 <= j < n && (#[trigger] slots[j]).block.0 == block && slots[j].offset == i {
            0xE5u8
        } else {
            disk[block][i]
        },
    decreases n,
{
    if n > 0 {
        let before = (n - 1) as nat;
        law_deletion_marks_one_byte_of_each_slot(disk, slots, before, block, i);
        assert(slot_aligned(slots[n - 1]));
        if !(slots[n - 1].block.0 == block && slots[n - 1].offset == i) {
            assert((exists|j: int|
                0 <= j < n && (#[trigger] slots[j]).block.0 == block && slots[j].offset == i) <==> (
            exists|j: int|
                0 <= j < before && (#[trigger] slots[j]).block.0 == block && slots[j].offset
                    == i));
        }
    }
}

} // verus!
