//! Where room for a new entry is found, and when there is none.

use crate::allocation::HintSearch;
use crate::block::Disk;
use crate::directory::{slot_bytes, Cursor, DirectorySlot, Step};
use crate::entry::ClusterId;
use crate::free_slots::{
    first_search, later_searches, FreeOutcome, FreeSearch, FreeState, FreeStep,
};
use crate::laws::whole_blocks;
use crate::rows::{all_aligned, is_live, lemma_slot_bytes};
use crate::table::Link;
use crate::table_laws::{law_no_space_is_left_over, word_of};
use crate::volume::FatVolume;
use vstd::prelude::*;

verus! {

/// Is there room from the slot number `i` on, for so many slots?
pub open spec fn has_room(disk: Disk, slots: Seq<DirectorySlot>, i: int, needed: nat) -> bool {
    &&& 0 <= i
    &&& i + needed <= slots.len()
    &&& forall|j: int| i <= j < i + needed ==> !is_live(disk, #[trigger] slots[j])
}

/// The slots at the end that hold nothing.
spec fn dead_tail(disk: Disk, slots: Seq<DirectorySlot>) -> Seq<DirectorySlot>
    decreases slots.len(),
{
    if slots.len() == 0 || is_live(disk, slots.last()) {
        Seq::empty()
    } else {
        dead_tail(disk, slots.drop_last()).push(slots.last())
    }
}

/// The slots at the end that hold nothing are all that do so.
proof fn lemma_dead_tail(disk: Disk, slots: Seq<DirectorySlot>)
    ensures
        ({
            let tail = dead_tail(disk, slots);
            let from = slots.len() - tail.len();
            &&& 0 <= from
            &&& tail == slots.skip(from)
            &&& forall|j: int| from <= j < slots.len() ==> !is_live(disk, #[trigger] slots[j])
            &&& from > 0 ==> is_live(disk, slots[from - 1])
        }),
    decreases slots.len(),
{
    if slots.len() == 0 || is_live(disk, slots.last()) {
        assert(slots.skip(slots.len() as int) =~= Seq::empty());
    } else {
        let front = slots.drop_last();
        lemma_dead_tail(disk, front);
        let tail = dead_tail(disk, slots);
        let from = slots.len() - tail.len();
        assert(slots.skip(from) =~= front.skip(from).push(slots.last()));
        assert forall|j: int| from <= j < slots.len() implies !is_live(
            disk,
            #[trigger] slots[j],
        ) by {
            if j < front.len() {
                assert(front[j] == slots[j]);
            }
        }
        if from > 0 {
            assert(front[from - 1] == slots[from - 1]);
        }
    }
}

impl FatVolume {
    /// A walk has come by its first slots before it came by the others.
    proof fn lemma_walk_prefix(self, disk: Disk, start: Cursor, k: nat, m: nat)
        requires
            k <= m,
            self.walked(disk, start, m) is Some,
        ensures
            self.walked(disk, start, k) is Some,
            ({
                let v = self.walked(disk, start, k)->0;
                let w = self.walked(disk, start, m)->0;
                v.slots.len() <= w.slots.len() && v.slots == w.slots.take(v.slots.len() as int)
            }),
        decreases m,
    {
        let w = self.walked(disk, start, m)->0;
        if k < m {
            self.lemma_walk_prefix(disk, start, k, (m - 1) as nat);
            let v = self.walked(disk, start, k)->0;
            let u = self.walked(disk, start, (m - 1) as nat)->0;
            assert(w.slots.take(v.slots.len() as int) =~= u.slots.take(v.slots.len() as int));
        } else {
            assert(w.slots.take(w.slots.len() as int) =~= w.slots);
        }
    }
}

/// A search for room that has come by some slots finds the first room there is.
proof fn lemma_room_is_found(
    volume: FatVolume,
    disk: Disk,
    start: Cursor,
    slots: Seq<DirectorySlot>,
    m: nat,
    k: nat,
    needed: nat,
    i: int,
    searches: Seq<HintSearch>,
    n: nat,
)
    requires
        whole_blocks(disk),
        all_aligned(slots),
        volume.walked(disk, start, m) matches Some(w) && w.slots == slots,
        k <= m,
        needed > 0,
        has_room(disk, slots, i, needed),
        forall|a: int| 0 <= a < i ==> !#[trigger] has_room(disk, slots, a, needed),
        (volume.walked(disk, start, k)->0).slots.len() < i + needed,
        ({
            let w = volume.walked(disk, start, k)->0;
            let here = FreeState {
                volume,
                disk,
                at: w.at,
                slots: dead_tail(disk, w.slots),
                troubled: false,
            };
            here.within(needed, searches, n) is Some
        }),
    ensures
        ({
            let w = volume.walked(disk, start, k)->0;
            let here = FreeState {
                volume,
                disk,
                at: w.at,
                slots: dead_tail(disk, w.slots),
                troubled: false,
            };
            here.within(needed, searches, n) == Some(
                FreeSearch {
                    volume,
                    disk,
                    outcome: FreeOutcome::Found(slots.subrange(i, i + needed)),
                    troubled: false,
                },
            )
        }),
    decreases m - k,
{
    reveal(FreeState::step);
    let w = volume.walked(disk, start, k)->0;
    let tail = dead_tail(disk, w.slots);
    let here = FreeState { volume, disk, at: w.at, slots: tail, troubled: false };
    volume.lemma_walk_prefix(disk, start, k, m);
    if k == m {
        assert(false);
    } else {
        volume.lemma_walk_prefix(disk, start, k + 1, m);
        lemma_dead_tail(disk, w.slots);
        let v = volume.walked(disk, start, k + 1)->0;
        match volume.step(disk, w.at) {
            Step::Slot(slot, raw, next) => {
                let len = w.slots.len() as int;
                assert(v.slots == w.slots.push(slot));
                assert(v.slots[len] == slots[len]);
                assert(slot == slots[len]);
                assert(raw == slot_bytes(disk, slot));
                lemma_slot_bytes(disk, slots[len]);
                assert(w.slots.push(slot).drop_last() =~= w.slots);
                let from = len - tail.len();
                assert forall|j: int| from <= j < len implies !is_live(
                    disk,
                    #[trigger] slots[j],
                ) by {
                    assert(w.slots[j] == slots[j]);
                }
                if is_live(disk, slot) {
                    assert(len + 1 < i + needed) by {
                        if len + 1 == i + needed {
                            assert(!is_live(disk, slots[len]));
                        }
                    }
                    assert(dead_tail(disk, v.slots) =~= Seq::empty());
                    lemma_room_is_found(
                        volume,
                        disk,
                        start,
                        slots,
                        m,
                        k + 1,
                        needed,
                        i,
                        later_searches(searches),
                        (n - 1) as nat,
                    );
                } else if tail.len() + 1 == needed {
                    assert(has_room(disk, slots, from, needed)) by {
                        assert(!is_live(disk, slots[len]));
                    }
                    assert(from == i);
                    assert(tail.push(slot) =~= slots.subrange(i, i + needed)) by {
                        assert forall|j: int|
                            0 <= j < tail.len() implies tail[j] == #[trigger] slots[i + j] by {
                            assert(tail[j] == w.slots[from + j]);
                        }
                    }
                } else {
                    assert(len + 1 < i + needed) by {
                        if len + 1 == i + needed {
                            if tail.len() >= needed {
                                assert(has_room(disk, slots, len - needed, needed));
                                assert(false);
                            } else {
                                assert(i <= from - 1 < i + needed);
                                assert(w.slots[from - 1] == slots[from - 1]);
                                assert(false);
                            }
                        }
                    }
                    lemma_room_is_found(
                        volume,
                        disk,
                        start,
                        slots,
                        m,
                        k + 1,
                        needed,
                        i,
                        later_searches(searches),
                        (n - 1) as nat,
                    );
                }
            },
            Step::Enter(_) => {
                lemma_room_is_found(
                    volume,
                    disk,
                    start,
                    slots,
                    m,
                    k + 1,
                    needed,
                    i,
                    later_searches(searches),
                    (n - 1) as nat,
                );
            },
            _ => {
                assert(false);
            },
        }
    }
}

/// Where a directory has room for an entry, the first room that it has is taken, and
/// nothing changes by looking for it. It need not be made longer, and no slot that
/// could have been used is passed over.
pub proof fn law_first_room_is_taken(
    volume: FatVolume,
    disk: Disk,
    dir: ClusterId,
    slots: Seq<DirectorySlot>,
    end: Link,
    needed: nat,
    searches: Seq<HintSearch>,
    i: int,
)
    requires
        whole_blocks(disk),
        volume.is_made_of(disk, dir, slots, end),
        volume.free_slots_in_reach(disk, dir, needed),
        needed > 0,
        has_room(disk, slots, i, needed),
        forall|a: int| 0 <= a < i ==> !#[trigger] has_room(disk, slots, a, needed),
    ensures
        volume.free_slots(disk, dir, needed, searches) == (FreeSearch {
            volume,
            disk,
            outcome: FreeOutcome::Found(slots.subrange(i, i + needed)),
            troubled: false,
        }),
{
    let n = choose|n: nat| volume.free_slots_bounded(disk, dir, needed, n);
    let m = volume.lemma_steps_of(disk, dir, slots, end);
    let start = volume.dir_start(dir);
    volume.lemma_made_of_aligned(disk, dir, slots, end);
    assert(FreeState::start(volume, disk, dir).within(needed, searches, n) is Some);
    let w = volume.walked(disk, start, 0)->0;
    assert(w.slots =~= Seq::empty());
    assert(dead_tail(disk, w.slots) =~= Seq::empty());
    lemma_room_is_found(volume, disk, start, slots, m, 0, needed, i, searches, n);
}

/// A search for room in a directory that is made of clusters gives up only where no
/// cluster is free by then.
proof fn lemma_gives_up_when_full(here: FreeState, needed: nat, searches: Seq<HintSearch>, n: nat)
    requires
        here.at.cluster is Some,
        here.within(needed, searches, n) matches Some(search) && search.outcome is Full,
    ensures
        ({
            let search = here.within(needed, searches, n)->0;
            &&& search.volume.chosen(search.disk) is None
            &&& search.volume.same_layout(here.volume)
        }),
    decreases n,
{
    reveal(FreeState::step);
    match here.step(needed, first_search(searches)) {
        FreeStep::Next(next) => {
            lemma_gives_up_when_full(next, needed, later_searches(searches), (n - 1) as nat);
        },
        _ => {},
    }
}

/// There is no room for an entry only where the root directory is full, which has a
/// region of its own, or where no cluster of the volume is free by which the directory
/// could be made longer.
pub proof fn law_no_room_means_no_space(
    volume: FatVolume,
    disk: Disk,
    dir: ClusterId,
    needed: nat,
    searches: Seq<HintSearch>,
    c: ClusterId,
)
    requires
        volume.free_slots_in_reach(disk, dir, needed),
        volume.free_slots(disk, dir, needed, searches).outcome is Full,
        volume.cluster_count + 2 <= u32::MAX,
        2 <= c.0 <= volume.cluster_count + 1,
    ensures
        ({
            let search = volume.free_slots(disk, dir, needed, searches);
            ||| volume.fat_specific_info is Fat16 && dir.0 == 0xFFFF_FFFC
            ||| word_of(volume, search.disk, c) != 0
        }),
{
    let n = choose|n: nat| volume.free_slots_bounded(disk, dir, needed, n);
    let start = FreeState::start(volume, disk, dir);
    assert(start.within(needed, searches, n) is Some);
    if !(volume.fat_specific_info is Fat16 && dir.0 == 0xFFFF_FFFC) {
        lemma_gives_up_when_full(start, needed, searches, n);
        let search = volume.free_slots(disk, dir, needed, searches);
        if word_of(volume, search.disk, c) == 0 {
            law_no_space_is_left_over(
                search.volume,
                search.disk,
                None,
                false,
                HintSearch::Done,
                c,
            );
        }
    }
}

} // verus!
