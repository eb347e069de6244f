//! What a directory shows after an entry was written to it.

use crate::allocation::HintSearch;
use crate::block::{BlockCache, BlockDevice, Disk};
use crate::creation::{chain_bytes, entry_chain, placed, with_slots};
use crate::directory::{end_link, slot_bytes, Cursor, DirectorySlot};
use crate::directory_laws::{
    law_created_name_is_found, law_created_name_is_listed, law_creation_leaves_others,
};
use crate::entry::{
    slot_entry, slot_is_end, slot_is_lfn, slot_is_valid, ClusterId, DirEntry, EntryView,
};
use crate::free_slots::FreeOutcome;
use crate::laws::{distinct_slots, lemma_entry_layout, slot_aligned, whole_blocks};
use crate::lfn_buffer::utf8_length;
use crate::listing::{Listing, LongNameVisitor, LongNames};
use crate::long_lookup::{bears_name, chain_reads, LongNameFinder, LongSought};
use crate::long_name::{law_text_spells_itself, long_name_length, reads_as};
use crate::name::csum_of;
use crate::placing::{
    law_found_behind_an_entry, law_found_slots, law_no_slot_twice, law_search_adds_blanks,
    never_used,
};
use crate::round_trip::{
    law_written_slots_are_a_chain, lemma_chain_slot, lemma_pieces_shown, pieces_of,
};
use crate::table::Link;
use crate::volume::FatVolume;
use crate::walk::law_visit_is_told;
use vstd::prelude::*;

verus! {

/// Is none of these slots a piece of a long name?
pub open spec fn no_pieces(disk: Disk, slots: Seq<DirectorySlot>) -> bool {
    forall|i: int|
        0 <= i < slots.len() ==> {
            let raw = slot_bytes(disk, #[trigger] slots[i]);
            slot_is_valid(raw) ==> !slot_is_lfn(raw)
        }
}

impl FatVolume {
    /// A walk comes by the slots that it came by before, and then by more.
    proof fn lemma_walk_goes_on(self, disk: Disk, start: Cursor, i: nat, k: nat)
        requires
            i <= k,
            self.walked(disk, start, k) is Some,
        ensures
            self.walked(disk, start, i) matches Some(w) && (self.walked(
                disk,
                start,
                k,
            )->0).slots.len() >= w.slots.len() && (self.walked(disk, start, k)->0).slots.take(
                w.slots.len() as int,
            ) == w.slots,
        decreases k,
    {
        let last = self.walked(disk, start, k)->0;
        if i < k {
            self.lemma_walk_goes_on(disk, start, i, (k - 1) as nat);
            let w = self.walked(disk, start, i)->0;
            let before = self.walked(disk, start, (k - 1) as nat)->0;
            assert(last.slots.take(w.slots.len() as int) =~= before.slots.take(
                w.slots.len() as int,
            ));
        } else {
            assert(last.slots.take(last.slots.len() as int) =~= last.slots);
        }
    }

    /// Writing an entry does not change what slots a directory is made of, nor
    /// what comes behind them.
    proof fn lemma_made_of_the_same(
        self,
        disk: Disk,
        dir: ClusterId,
        all: Seq<DirectorySlot>,
        end: Link,
        slots: Seq<DirectorySlot>,
        raws: Seq<Seq<u8>>,
    )
        requires
            self.is_sound(disk, dir),
            self.is_made_of(disk, dir, all, end),
            forall|i: int|
                0 <= i < slots.len() ==> self.holds_data(
                    disk,
                    (#[trigger] slots[i]).block.0 as int,
                ),
        ensures
            self.is_made_of(with_slots(disk, slots, raws, slots.len()), dir, all, end),
    {
        let after = with_slots(disk, slots, raws, slots.len());
        let k = self.lemma_steps_of(disk, dir, all, end);
        let w = self.walked(disk, self.dir_start(dir), k)->0;
        self.lemma_walk_stays(disk, dir, slots, raws, slots.len(), k);
        self.lemma_walk_in_use(disk, dir, k);
        if let Some(c) = w.at.cluster {
            self.lemma_table_stays(disk, slots, raws, slots.len(), c);
        }
        assert(self.walk_ends(after, dir, k));
    }

    /// Someone who looks for a long name finds nothing among slots that are no
    /// pieces of one.
    proof fn lemma_told_no_names(self, disk: Disk, slots: Seq<DirectorySlot>, state: LongSought)
        requires
            no_pieces(disk, slots),
            state.pieces.len() == 0,
            state.found is None,
        ensures
            ({
                let told = self.told::<LongNameFinder>(disk, slots, state).state;
                told.pieces.len() == 0 && told.found is None && told.name == state.name
                    && told.fold_case == state.fold_case
            }),
        decreases slots.len(),
    {
        if slots.len() > 0 {
            let before = slots.drop_last();
            assert forall|i: int| 0 <= i < before.len() implies {
                let raw = slot_bytes(disk, #[trigger] before[i]);
                slot_is_valid(raw) ==> !slot_is_lfn(raw)
            } by {
                assert(before[i] == slots[i]);
            }
            self.lemma_told_no_names(disk, before, state);
            assert(slots.last() == slots[slots.len() - 1]);
        }
    }
}

/// Behind the slots of one long name, and nothing else, no entry bears a name
/// that does not count as that one.
proof fn lemma_no_other_name(
    name: Seq<char>,
    checksum: u8,
    short_name: Seq<u8>,
    sought: Seq<char>,
    fold_case: bool,
)
    requires
        long_name_length(name) is Ok,
        !reads_as(sought, name, fold_case),
    ensures
        ({
            let raws = chain_bytes(name, checksum);
            !bears_name(pieces_of(raws, raws.len()), short_name, sought, fold_case)
        }),
{
    let raws = chain_bytes(name, checksum);
    let pieces = pieces_of(raws, raws.len());
    law_written_slots_are_a_chain(name, checksum);
    law_text_spells_itself(name, sought, fold_case);
    if bears_name(pieces, short_name, sought, fold_case) {
        let n = choose|n: int|
            0 <= n <= pieces.len() && chain_reads(
                #[trigger] pieces.skip(n),
                csum_of(short_name),
                sought,
                fold_case,
            );
        let chain = pieces.skip(n);
        assert(chain[0] == pieces[n]);
        assert(n == 0);
        assert(chain =~= pieces);
    }
}

/// Someone who looks for another name goes past an entry that was written under a
/// long name.
proof fn lemma_goes_past_name(
    volume: FatVolume,
    disk: Disk,
    slots: Seq<DirectorySlot>,
    name: Seq<char>,
    entry: EntryView,
    state: LongSought,
)
    requires
        whole_blocks(disk),
        volume.slots_fit(disk, slots, name),
        long_name_length(name) is Ok,
        entry.name.len() == 11,
        entry.name[0] != 0 && entry.name[0] != 0xE5,
        entry.attributes.0 % 16 != 15,
        state.pieces.len() == 0,
        state.found is None,
        !reads_as(state.name, name, state.fold_case),
    ensures
        ({
            let after = volume.with_named_entry(disk, slots, name, entry);
            let told = volume.told::<LongNameFinder>(after, slots, state);
            !told.over && told.state.pieces.len() == 0 && told.state.found is None
        }),
{
    let after = volume.with_named_entry(disk, slots, name, entry);
    let ft = volume.fat_type();
    let whole = entry_chain(name, entry, ft);
    let raws = chain_bytes(name, csum_of(entry.name));
    let count = raws.len();
    let entries = Seq::new(
        count,
        |i: int| slot_entry(raws[i], ft, slots[i].block.0, slots[i].offset),
    );
    volume.lemma_named_entry(disk, slots, name, entry);
    lemma_entry_layout(entry, ft);
    lemma_pieces_shown(state, name, csum_of(entry.name), entries, count);
    assert forall|i: int| 0 <= i < count implies slot_bytes(after, #[trigger] slots[i]) == raws[i]
        && slot_is_valid(raws[i]) && entries[i] == slot_entry(
        raws[i],
        ft,
        slots[i].block.0,
        slots[i].offset,
    ) by {
        lemma_chain_slot(name, csum_of(entry.name), i);
        assert(raws[i] == whole.drop_last()[i]);
    }
    volume.lemma_told_pieces(after, slots, raws, entries, state, count);
    assert(slots.take(count as int) =~= slots.drop_last());
    assert(slot_bytes(after, slots[count as int]) == whole.last());
    assert(!slot_is_lfn(whole.last()));
    assert(state.pieces + pieces_of(raws, count) =~= pieces_of(raws, count));
    lemma_no_other_name(
        name,
        csum_of(entry.name),
        volume.as_read(entry, slots.last()).name,
        state.name,
        state.fold_case,
    );
}

/// Where an entry was written under a long name to a directory without long names,
/// no other long name is found there: none but those that count as the one that
/// was written.
pub proof fn law_no_other_name_is_found(
    volume: FatVolume,
    disk: Disk,
    dir: ClusterId,
    front: Seq<DirectorySlot>,
    slots: Seq<DirectorySlot>,
    back: Seq<DirectorySlot>,
    name: Seq<char>,
    entry: EntryView,
    sought: Seq<char>,
    fold_case: bool,
)
    requires
        volume.is_sound(disk, dir),
        volume.is_made_of(disk, dir, front + slots + back, Link::End),
        volume.slots_fit(disk, slots, name),
        no_pieces(disk, front),
        no_pieces(disk, back),
        long_name_length(name) is Ok,
        entry.name.len() == 11,
        entry.name[0] != 0 && entry.name[0] != 0xE5,
        entry.attributes.0 % 16 != 15,
        !reads_as(sought, name, fold_case),
    ensures
        ({
            let after = volume.with_named_entry(disk, slots, name, entry);
            &&& volume.long_name_lookup(after, dir, sought, fold_case) matches Some(visit)
            &&& visit.end == Link::End
            &&& visit.state.found is None
        }),
{
    let after = volume.with_named_entry(disk, slots, name, entry);
    let all = front + slots + back;
    let first = LongSought::start(sought, fold_case);
    let whole = entry_chain(name, entry, volume.fat_type());
    volume.lemma_made_of_the_same(disk, dir, all, Link::End, slots, whole);
    law_visit_is_told::<LongNameFinder>(volume, after, dir, all, Link::End, first);
    // the slots in front of the entry and behind it are as they were
    lemma_parts_apart(volume, disk, dir, front, slots, back, Link::End);
    law_creation_leaves_others::<LongNameFinder>(volume, disk, slots, name, entry, front, first);
    volume.lemma_told_no_names(disk, front, first);
    volume.lemma_told_concat::<LongNameFinder>(after, front + slots, back, first);
    volume.lemma_told_concat::<LongNameFinder>(after, front, slots, first);
    let state = volume.told::<LongNameFinder>(after, front, first).state;
    lemma_goes_past_name(volume, disk, slots, name, entry, state);
    let behind = volume.told::<LongNameFinder>(after, slots, state).state;
    law_creation_leaves_others::<LongNameFinder>(volume, disk, slots, name, entry, back, behind);
    volume.lemma_told_no_names(disk, back, behind);
}

/// The parts of a directory have no slot in common.
pub proof fn lemma_parts_apart(
    volume: FatVolume,
    disk: Disk,
    dir: ClusterId,
    front: Seq<DirectorySlot>,
    slots: Seq<DirectorySlot>,
    back: Seq<DirectorySlot>,
    end: Link,
)
    requires
        volume.is_sound(disk, dir),
        volume.is_made_of(disk, dir, front + slots + back, end),
    ensures
        distinct_slots(front + slots + back),
        distinct_slots(slots),
        forall|i: int|
            0 <= i < slots.len() ==> volume.holds_data(disk, (#[trigger] slots[i]).block.0 as int),
        forall|i: int|
            0 <= i < front.len() ==> slot_aligned(#[trigger] front[i]) && !slots.contains(front[i]),
        forall|i: int|
            0 <= i < back.len() ==> slot_aligned(#[trigger] back[i]) && !slots.contains(back[i]),
{
    let all = front + slots + back;
    let k = volume.lemma_steps_of(disk, dir, all, end);
    law_no_slot_twice(volume, disk, dir, k);
    assert forall|i: int| 0 <= i < slots.len() implies #[trigger] slots[i] == all[front.len()
        + i] by {}
    assert forall|i: int| 0 <= i < front.len() implies slot_aligned(#[trigger] front[i])
        && !slots.contains(front[i]) by {
        assert(front[i] == all[i]);
        if slots.contains(front[i]) {
            let j = choose|j: int| 0 <= j < slots.len() && slots[j] == front[i];
            assert(all[front.len() + j] == all[i]);
        }
    }
    assert forall|i: int| 0 <= i < back.len() implies slot_aligned(#[trigger] back[i])
        && !slots.contains(back[i]) by {
        let p = front.len() + slots.len() + i;
        assert(back[i] == all[p]);
        if slots.contains(back[i]) {
            let j = choose|j: int| 0 <= j < slots.len() && slots[j] == back[i];
            assert(all[front.len() + j] == all[p]);
        }
    }
}

impl FatVolume {
    /// Slots that a directory begins with are followed by the rest of it.
    proof fn lemma_rest_of(
        self,
        disk: Disk,
        dir: ClusterId,
        front: Seq<DirectorySlot>,
        slots: Seq<DirectorySlot>,
    ) -> (rest: (Seq<DirectorySlot>, Link))
        requires
            self.walk_in_reach(disk, dir),
            self.follows(disk, dir, front, slots),
        ensures
            self.is_made_of(disk, dir, front + slots + rest.0, rest.1),
    {
        let start = self.dir_start(dir);
        let k = choose|k: nat| self.walk_ends(disk, dir, k);
        let i = choose|i: nat|
            (#[trigger] self.walked(disk, start, i)) matches Some(w) && w.slots == front + slots;
        self.lemma_not_behind_the_end(disk, dir, k, i);
        self.lemma_walk_goes_on(disk, start, i, k);
        let w = self.walked(disk, start, k)->0;
        let rest = w.slots.skip((front + slots).len() as int);
        assert(front + slots + rest =~= w.slots);
        (rest, end_link(self.step(disk, w.at)->End_0))
    }
}

/// Is there no entry behind a slot that was never used?
pub open spec fn tidy(disk: Disk, slots: Seq<DirectorySlot>) -> bool {
    forall|i: int, j: int|
        0 <= i < j < slots.len() && slot_is_end(slot_bytes(disk, #[trigger] slots[i]))
            ==> !slot_is_valid(slot_bytes(disk, #[trigger] slots[j]))
}

impl FatVolume {
    /// The slots that a directory begins with are the first of those that it is
    /// made of.
    proof fn lemma_begins(
        self,
        disk: Disk,
        dir: ClusterId,
        all: Seq<DirectorySlot>,
        end: Link,
        front: Seq<DirectorySlot>,
    )
        requires
            self.is_made_of(disk, dir, all, end),
            self.begins_with(disk, dir, front),
        ensures
            front.len() <= all.len(),
            all.take(front.len() as int) == front,
    {
        let start = self.dir_start(dir);
        let k = self.lemma_steps_of(disk, dir, all, end);
        let i = choose|i: nat|
            (#[trigger] self.walked(disk, start, i)) matches Some(w) && front.len() <= w.slots.len()
                && w.slots.take(front.len() as int) == front;
        self.lemma_not_behind_the_end(disk, dir, k, i);
        self.lemma_walk_goes_on(disk, start, i, k);
        let w = self.walked(disk, start, i)->0;
        assert(all.take(front.len() as int) =~= all.take(w.slots.len() as int).take(
            front.len() as int,
        ));
    }

    /// Someone who looks for a long name and has not found it looks on, unless
    /// there is a slot that was never used.
    pub proof fn lemma_looks_on(self, disk: Disk, slots: Seq<DirectorySlot>, state: LongSought)
        requires
            state.found is None,
        ensures
            ({
                let told = self.told::<LongNameFinder>(disk, slots, state);
                &&& !told.over ==> told.state.found is None
                &&& told.over && told.state.found is None ==> exists|i: int|
                    0 <= i < slots.len() && slot_is_end(slot_bytes(disk, #[trigger] slots[i]))
            }),
        decreases slots.len(),
    {
        if slots.len() > 0 {
            let before = slots.drop_last();
            self.lemma_looks_on(disk, before, state);
            let told = self.told::<LongNameFinder>(disk, before, state);
            if told.over && told.state.found is None {
                let i = choose|i: int|
                    0 <= i < before.len() && slot_is_end(slot_bytes(disk, #[trigger] before[i]));
                assert(slots[i] == before[i]);
            }
            assert(slots.last() == slots[slots.len() - 1]);
        }
    }

    /// In a tidy directory, nothing stops someone who looks for a name that is not
    /// there from coming to the slots behind one of its entries.
    proof fn lemma_nothing_stops(
        self,
        disk: Disk,
        dir: ClusterId,
        all: Seq<DirectorySlot>,
        end: Link,
        front: Seq<DirectorySlot>,
        sought: Seq<char>,
        fold_case: bool,
    )
        requires
            self.is_made_of(disk, dir, all, end),
            self.begins_with(disk, dir, front),
            tidy(disk, all),
            front.len() > 0 ==> slot_is_valid(slot_bytes(disk, front.last())),
            self.long_name_lookup(disk, dir, sought, fold_case) matches Some(visit)
                && visit.state.found is None,
        ensures
            !self.told::<LongNameFinder>(disk, front, LongSought::start(sought, fold_case)).over,
    {
        let first = LongSought::start(sought, fold_case);
        let told = self.told::<LongNameFinder>(disk, front, first);
        self.lemma_begins(disk, dir, all, end, front);
        let rest = all.skip(front.len() as int);
        assert(front + rest =~= all);
        law_visit_is_told::<LongNameFinder>(self, disk, dir, all, end, first);
        self.lemma_told_concat::<LongNameFinder>(disk, front, rest, first);
        self.lemma_looks_on(disk, front, first);
        if told.over {
            let i = choose|i: int|
                0 <= i < front.len() && slot_is_end(slot_bytes(disk, #[trigger] front[i]));
            let last = front.len() - 1;
            assert(all.take(front.len() as int)[i] == all[i]);
            assert(all.take(front.len() as int)[last] == all[last]);
        }
    }
}

/// Where an entry was put.
pub struct Placing {
    /// What the disk held once there was room for it.
    pub disk: Disk,
    /// The slots in front of it.
    pub front: Seq<DirectorySlot>,
    /// The slots that it was written to.
    pub slots: Seq<DirectorySlot>,
    /// The slots behind it.
    pub back: Seq<DirectorySlot>,
    /// What comes behind the last slot of the directory.
    pub end: Link,
}

impl Placing {
    /// Is this where an entry was put in the directory `dir`, which was made of
    /// the slots `all` when the disk held `disk`?
    spec fn fits(
        self,
        volume: FatVolume,
        disk: Disk,
        dir: ClusterId,
        all: Seq<DirectorySlot>,
        name: Seq<char>,
    ) -> bool {
        &&& volume.is_sound(self.disk, dir)
        &&& volume.walk_in_reach(self.disk, dir)
        &&& volume.slots_fit(self.disk, self.slots, name)
        &&& volume.follows(self.disk, dir, self.front, self.slots)
        &&& volume.is_made_of(self.disk, dir, self.front + self.slots + self.back, self.end)
        &&& volume.begins_with(disk, dir, self.front)
        &&& self.front.len() <= all.len()
        &&& all.take(self.front.len() as int) == self.front
        &&& self.front.len() > 0 ==> slot_is_valid(slot_bytes(disk, self.front.last()))
        &&& forall|i: int|
            0 <= i < all.len() ==> slot_bytes(self.disk, #[trigger] all[i]) == slot_bytes(
                disk,
                all[i],
            )
        &&& forall|i: int|
            0 <= i < self.front.len() ==> slot_bytes(self.disk, #[trigger] self.front[i])
                == slot_bytes(disk, self.front[i])
    }
}

/// The slot that an entry says it stands in.
pub open spec fn slot_of(entry: DirEntry) -> DirectorySlot {
    DirectorySlot { block: entry.entry_block, offset: entry.entry_offset }
}

/// Where an operation that wrote an entry put it.
proof fn lemma_where_it_is<D: BlockDevice>(
    volume: FatVolume,
    before: BlockCache<D>,
    dir: ClusterId,
    all: Seq<DirectorySlot>,
    end: Link,
    name: Seq<char>,
    entry: EntryView,
    after: BlockCache<D>,
    left: FatVolume,
    written: DirEntry,
) -> (placing: Placing)
    requires
        volume.is_sound(before.disk(), dir),
        volume.is_made_of(before.disk(), dir, all, end),
        volume.creation_in_reach(before.disk(), dir, name),
        volume.writes_entry(before, dir, name, entry, after, left, Ok(written)),
    ensures
        placing.fits(volume, before.disk(), dir, all, name),
        long_name_length(name) is Ok,
        after.disk() == volume.with_named_entry(placing.disk, placing.slots, name, entry),
        placing.slots.last() == slot_of(written),
        end == Link::End ==> placing.end == Link::End && volume.made_longer(placing.disk, dir, all),
{
    let disk = before.disk();
    let needed = FatVolume::slots_for(name);
    let searches = choose|searches: Seq<HintSearch>|
        {
            let search = #[trigger] volume.free_slots(disk, dir, needed, searches);
            &&& search.outcome matches FreeOutcome::Found(slots) && {
                &&& written@ == placed(entry, slots.last())
                &&& after.disk() == with_slots(
                    search.disk,
                    slots,
                    entry_chain(name, entry, volume.fat_type()),
                    needed,
                )
            }
        };
    let search = volume.free_slots(disk, dir, needed, searches);
    let slots = search.outcome->Found_0;
    let k = volume.lemma_steps_of(disk, dir, all, end);
    law_found_slots(volume, disk, dir, needed, searches);
    law_found_behind_an_entry(volume, disk, dir, needed, searches);
    let front = choose|front: Seq<DirectorySlot>|
        {
            &&& #[trigger] volume.follows(search.disk, dir, front, slots)
            &&& volume.begins_with(disk, dir, front)
            &&& front.len() > 0 ==> slot_is_valid(slot_bytes(search.disk, front.last()))
        };
    let (back, last) = volume.lemma_rest_of(search.disk, dir, front, slots);
    law_no_slot_twice(volume, disk, dir, k);
    volume.lemma_begins(disk, dir, all, end, front);
    assert forall|i: int| 0 <= i < all.len() implies slot_bytes(search.disk, #[trigger] all[i])
        == slot_bytes(disk, all[i]) by {
        assert(volume.holds_data(disk, all[i].block.0 as int));
        assert(search.disk[all[i].block.0] == disk[all[i].block.0]);
    }
    assert forall|i: int| 0 <= i < front.len() implies slot_bytes(search.disk, #[trigger] front[i])
        == slot_bytes(disk, front[i]) by {
        assert(front[i] == all[i]);
    }
    if front.len() > 0 {
        assert(front.last() == front[front.len() - 1]);
    }
    if end == Link::End {
        law_search_adds_blanks(volume, disk, dir, all, needed, searches);
        let extra = choose|extra: Seq<DirectorySlot>| #[trigger]
            volume.is_made_of(search.disk, dir, all + extra, Link::End) && never_used(
                search.disk,
                extra,
            );
        volume.lemma_made_of_one(
            search.disk,
            dir,
            front + slots + back,
            last,
            all + extra,
            Link::End,
        );
    }
    assert(volume.slots_fit(search.disk, slots, name));
    Placing { disk: search.disk, front, slots, back, end: last }
}

/// A new long name is found: where it was not found before, and an entry is
/// written under it, that entry is found, in the slot that the operation told. That
/// holds of the very name, and where case does not matter of every name that
/// differs by no more than case; and it holds of every directory where no entry
/// stands behind a slot that was never used.
pub proof fn law_new_name_is_found<D: BlockDevice>(
    volume: FatVolume,
    before: BlockCache<D>,
    dir: ClusterId,
    all: Seq<DirectorySlot>,
    end: Link,
    name: Seq<char>,
    entry: EntryView,
    after: BlockCache<D>,
    left: FatVolume,
    written: DirEntry,
    sought: Seq<char>,
    fold_case: bool,
)
    requires
        volume.is_sound(before.disk(), dir),
        volume.is_made_of(before.disk(), dir, all, end),
        tidy(before.disk(), all),
        volume.creation_in_reach(before.disk(), dir, name),
        volume.writes_entry(before, dir, name, entry, after, left, Ok(written)),
        entry.name.len() == 11,
        entry.name[0] != 0 && entry.name[0] != 0xE5,
        entry.attributes.0 % 16 != 15,
        reads_as(sought, name, fold_case),
        volume.long_name_lookup(before.disk(), dir, sought, fold_case) matches Some(visit)
            && visit.state.found is None,
    ensures
        volume.long_name_lookup(after.disk(), dir, sought, fold_case) matches Some(visit)
            && visit.end == Link::End && visit.state.found == Some(
            volume.as_read(entry, slot_of(written)),
        ),
{
    let disk = before.disk();
    let at = lemma_where_it_is(volume, before, dir, all, end, name, entry, after, left, written);
    volume.lemma_nothing_stops(disk, dir, all, end, at.front, sought, fold_case);
    lemma_found_in_new_slots(
        volume,
        disk,
        at.disk,
        dir,
        at.front,
        at.slots,
        name,
        entry,
        sought,
        fold_case,
    );
}

/// An entry is found in the slots that it was written to, if nothing stopped the
/// search in front of them before that.
proof fn lemma_found_in_new_slots(
    volume: FatVolume,
    disk: Disk,
    longer: Disk,
    dir: ClusterId,
    front: Seq<DirectorySlot>,
    slots: Seq<DirectorySlot>,
    name: Seq<char>,
    entry: EntryView,
    sought: Seq<char>,
    fold_case: bool,
)
    requires
        volume.is_sound(longer, dir),
        volume.walk_in_reach(longer, dir),
        volume.slots_fit(longer, slots, name),
        volume.follows(longer, dir, front, slots),
        long_name_length(name) is Ok,
        reads_as(sought, name, fold_case),
        entry.name.len() == 11,
        entry.name[0] != 0 && entry.name[0] != 0xE5,
        entry.attributes.0 % 16 != 15,
        forall|i: int|
            0 <= i < front.len() ==> slot_bytes(longer, #[trigger] front[i]) == slot_bytes(
                disk,
                front[i],
            ),
        !volume.told::<LongNameFinder>(disk, front, LongSought::start(sought, fold_case)).over,
    ensures
        ({
            let after = volume.with_named_entry(longer, slots, name, entry);
            &&& volume.long_name_lookup(after, dir, sought, fold_case) matches Some(visit)
            &&& visit.end == Link::End
            &&& visit.state.found == Some(volume.as_read(entry, slots.last()))
        }),
{
    let first = LongSought::start(sought, fold_case);
    let both = front + slots;
    volume.lemma_follows_distinct(longer, dir, front, slots);
    assert forall|i: int| 0 <= i < front.len() implies slot_aligned(#[trigger] front[i])
        && !slots.contains(front[i]) by {
        assert(front[i] == both[i]);
        if slots.contains(front[i]) {
            let j = choose|j: int| 0 <= j < slots.len() && slots[j] == front[i];
            assert(both[front.len() + j] == both[i]);
        }
    }
    volume.lemma_told_same::<LongNameFinder>(disk, longer, front, first);
    law_creation_leaves_others::<LongNameFinder>(volume, longer, slots, name, entry, front, first);
    law_created_name_is_found(
        volume,
        longer,
        dir,
        front,
        slots,
        name,
        entry,
        sought,
        fold_case,
    );
}

/// A new long name is taken once an entry was written under it, and so is every
/// name that differs from it by no more than case.
pub proof fn law_new_name_is_taken<D: BlockDevice>(
    volume: FatVolume,
    before: BlockCache<D>,
    dir: ClusterId,
    all: Seq<DirectorySlot>,
    end: Link,
    name: Seq<char>,
    entry: EntryView,
    after: BlockCache<D>,
    left: FatVolume,
    written: DirEntry,
    sought: Seq<char>,
)
    requires
        volume.is_sound(before.disk(), dir),
        volume.is_made_of(before.disk(), dir, all, end),
        tidy(before.disk(), all),
        volume.creation_in_reach(before.disk(), dir, name),
        volume.writes_entry(before, dir, name, entry, after, left, Ok(written)),
        entry.name.len() == 11,
        entry.name[0] != 0 && entry.name[0] != 0xE5,
        entry.attributes.0 % 16 != 15,
        reads_as(sought, name, true),
        volume.name_taken(before.disk(), dir, sought) matches Some(answer) && !answer.0 && answer.1
            == Link::End,
    ensures
        volume.name_taken(after.disk(), dir, sought) == Some((true, Link::End)),
{
    law_new_name_is_found(
        volume,
        before,
        dir,
        all,
        end,
        name,
        entry,
        after,
        left,
        written,
        sought,
        true,
    );
}

/// Where case matters, only the very name counts as a name.
pub proof fn law_very_name(sought: Seq<char>, name: Seq<char>)
    ensures
        reads_as(sought, name, false) <==> sought == name,
{
    if reads_as(sought, name, false) {
        assert(sought =~= name);
    }
}

/// Where an entry was written under a long name to a directory that held no long
/// names, a lookup finds it by what counts as that name, in the slot that the
/// operation told, and finds nothing by any other name. The directory may have been
/// made longer for it. It holds of every directory where no entry stands behind a
/// slot that was never used.
pub proof fn law_only_new_name_is_found<D: BlockDevice>(
    volume: FatVolume,
    before: BlockCache<D>,
    dir: ClusterId,
    all: Seq<DirectorySlot>,
    name: Seq<char>,
    entry: EntryView,
    after: BlockCache<D>,
    left: FatVolume,
    written: DirEntry,
    sought: Seq<char>,
    fold_case: bool,
)
    requires
        volume.is_sound(before.disk(), dir),
        volume.is_made_of(before.disk(), dir, all, Link::End),
        tidy(before.disk(), all),
        no_pieces(before.disk(), all),
        volume.creation_in_reach(before.disk(), dir, name),
        volume.writes_entry(before, dir, name, entry, after, left, Ok(written)),
        entry.name.len() == 11,
        entry.name[0] != 0 && entry.name[0] != 0xE5,
        entry.attributes.0 % 16 != 15,
    ensures
        volume.long_name_lookup(after.disk(), dir, sought, fold_case) matches Some(visit)
            && visit.end == Link::End && visit.state.found == if reads_as(
            sought,
            name,
            fold_case,
        ) {
            Some(volume.as_read(entry, slot_of(written)))
        } else {
            None
        },
{
    let disk = before.disk();
    let end = Link::End;
    if reads_as(sought, name, fold_case) {
        let first = LongSought::start(sought, fold_case);
        law_visit_is_told::<LongNameFinder>(volume, disk, dir, all, end, first);
        volume.lemma_told_no_names(disk, all, first);
        law_new_name_is_found(
            volume,
            before,
            dir,
            all,
            end,
            name,
            entry,
            after,
            left,
            written,
            sought,
            fold_case,
        );
    } else {
        let at = lemma_where_it_is(
            volume,
            before,
            dir,
            all,
            end,
            name,
            entry,
            after,
            left,
            written,
        );
        lemma_no_pieces_around(volume, disk, dir, all, name, at);
        law_no_other_name_is_found(
            volume,
            at.disk,
            dir,
            at.front,
            at.slots,
            at.back,
            name,
            entry,
            sought,
            fold_case,
        );
    }
}

/// In a directory that held no long names, none stands around a new entry.
proof fn lemma_no_pieces_around(
    volume: FatVolume,
    disk: Disk,
    dir: ClusterId,
    all: Seq<DirectorySlot>,
    name: Seq<char>,
    at: Placing,
)
    requires
        at.fits(volume, disk, dir, all, name),
        at.end == Link::End,
        volume.made_longer(at.disk, dir, all),
        no_pieces(disk, all),
    ensures
        no_pieces(at.disk, at.front),
        no_pieces(at.disk, at.back),
{
    let whole = at.front + at.slots + at.back;
    let extra = choose|extra: Seq<DirectorySlot>| #[trigger]
        volume.is_made_of(at.disk, dir, all + extra, Link::End) && never_used(at.disk, extra);
    volume.lemma_made_of_one(at.disk, dir, whole, Link::End, all + extra, Link::End);
    assert forall|i: int| 0 <= i < whole.len() implies {
        let raw = slot_bytes(at.disk, #[trigger] whole[i]);
        slot_is_valid(raw) ==> !slot_is_lfn(raw)
    } by {
        if i < all.len() {
            assert(whole[i] == all[i]);
        } else {
            assert(whole[i] == extra[i - all.len()]);
        }
    }
    assert forall|i: int| 0 <= i < at.front.len() implies #[trigger] at.front[i] == whole[i] by {}
    assert forall|i: int| 0 <= i < at.back.len() implies #[trigger] at.back[i]
        == whole[at.front.len() + at.slots.len() + i] by {}
}

/// Whoever writes an entry under a long name and then lists the directory is shown
/// that entry, in the slot that the operation told, along with the name, given a
/// buffer with enough room. This is so unless the listing ends in front of its
/// slots: the visitor has had enough, or there is a slot that was never used.
pub proof fn law_create_then_list<D: BlockDevice, V: LongNameVisitor>(
    volume: FatVolume,
    before: BlockCache<D>,
    dir: ClusterId,
    all: Seq<DirectorySlot>,
    end: Link,
    name: Seq<char>,
    entry: EntryView,
    after: BlockCache<D>,
    left: FatVolume,
    written: DirEntry,
    first: Listing<V::State>,
)
    requires
        volume.is_sound(before.disk(), dir),
        volume.is_made_of(before.disk(), dir, all, end),
        volume.creation_in_reach(before.disk(), dir, name),
        volume.writes_entry(before, dir, name, entry, after, left, Ok(written)),
        entry.name.len() == 11,
        entry.name[0] != 0 && entry.name[0] != 0xE5,
        entry.attributes.0 % 16 != 15,
        utf8_length(name) <= first.buffer.capacity,
    ensures
        exists|front: Seq<DirectorySlot>, slots: Seq<DirectorySlot>, back: Seq<DirectorySlot>|
            {
                &&& slots.last() == slot_of(written)
                &&& #[trigger] volume.lists_entry::<V>(
                    after.disk(),
                    dir,
                    front,
                    slots,
                    back,
                    volume.as_read(entry, slot_of(written)),
                    name,
                    first,
                )
            },
{
    let at = lemma_where_it_is(volume, before, dir, all, end, name, entry, after, left, written);
    lemma_listed_there::<V>(volume, dir, at, name, entry, first);
}

/// An entry is listed in the slots that it was written to.
proof fn lemma_listed_there<V: LongNameVisitor>(
    volume: FatVolume,
    dir: ClusterId,
    at: Placing,
    name: Seq<char>,
    entry: EntryView,
    first: Listing<V::State>,
)
    requires
        volume.is_sound(at.disk, dir),
        volume.is_made_of(at.disk, dir, at.front + at.slots + at.back, at.end),
        volume.slots_fit(at.disk, at.slots, name),
        long_name_length(name) is Ok,
        entry.name.len() == 11,
        entry.name[0] != 0 && entry.name[0] != 0xE5,
        entry.attributes.0 % 16 != 15,
        utf8_length(name) <= first.buffer.capacity,
    ensures
        ({
            let after = volume.with_named_entry(at.disk, at.slots, name, entry);
            &&& volume.lists_entry::<V>(
                after,
                dir,
                at.front,
                at.slots,
                at.back,
                volume.as_read(entry, at.slots.last()),
                name,
                first,
            )
            &&& at.end == Link::End ==> (volume.visited::<LongNames<V>>(after, dir, first)->0).end
                == Link::End
        }),
{
    let after = volume.with_named_entry(at.disk, at.slots, name, entry);
    let whole = at.front + at.slots + at.back;
    volume.lemma_made_of_the_same(
        at.disk,
        dir,
        whole,
        at.end,
        at.slots,
        entry_chain(name, entry, volume.fat_type()),
    );
    law_visit_is_told::<LongNames<V>>(volume, after, dir, whole, at.end, first);
    if !volume.told::<LongNames<V>>(after, at.front, first).over {
        law_created_name_is_listed::<V>(volume, at.disk, at.front, at.slots, name, entry, first);
    }
}

/// Does this visitor never have enough?
pub open spec fn never_has_enough<V: LongNameVisitor>() -> bool {
    forall|seen: V::State, entry: EntryView, name: Option<Seq<char>>|
        !(#[trigger] V::named(seen, entry, name)).1
}

/// A new long name is listed, whatever name creation accepts: whoever writes an
/// entry under it, and then lists the directory to a visitor that never has enough,
/// comes to the end of the directory, and on the way the visitor is shown that
/// entry along with that name, given a buffer with enough room. It holds of every
/// directory where no entry stands behind a slot that was never used.
#[verifier::rlimit(40)]
pub proof fn law_new_name_is_listed<D: BlockDevice, V: LongNameVisitor>(
    volume: FatVolume,
    before: BlockCache<D>,
    dir: ClusterId,
    all: Seq<DirectorySlot>,
    name: Seq<char>,
    entry: EntryView,
    after: BlockCache<D>,
    left: FatVolume,
    written: DirEntry,
    first: Listing<V::State>,
)
    requires
        volume.is_sound(before.disk(), dir),
        volume.is_made_of(before.disk(), dir, all, Link::End),
        tidy(before.disk(), all),
        volume.creation_in_reach(before.disk(), dir, name),
        volume.writes_entry(before, dir, name, entry, after, left, Ok(written)),
        entry.name.len() == 11,
        entry.name[0] != 0 && entry.name[0] != 0xE5,
        entry.attributes.0 % 16 != 15,
        utf8_length(name) <= first.buffer.capacity,
        never_has_enough::<V>(),
    ensures
        volume.visited::<LongNames<V>>(after.disk(), dir, first) matches Some(visit) && visit.end
            == Link::End,
        exists|front: Seq<DirectorySlot>, slots: Seq<DirectorySlot>, back: Seq<DirectorySlot>|
            {
                &&& slots.last() == slot_of(written)
                &&& !volume.told::<LongNames<V>>(after.disk(), front, first).over
                &&& #[trigger] volume.lists_entry::<V>(
                    after.disk(),
                    dir,
                    front,
                    slots,
                    back,
                    volume.as_read(entry, slot_of(written)),
                    name,
                    first,
                )
            },
{
    let disk = before.disk();
    let at = lemma_where_it_is(
        volume,
        before,
        dir,
        all,
        Link::End,
        name,
        entry,
        after,
        left,
        written,
    );
    lemma_listed_there::<V>(volume, dir, at, name, entry, first);
    lemma_parts_apart(volume, at.disk, dir, at.front, at.slots, at.back, at.end);
    law_creation_leaves_others::<LongNames<V>>(
        volume,
        at.disk,
        at.slots,
        name,
        entry,
        at.front,
        first,
    );
    assert forall|i: int| 0 <= i < at.front.len() implies !slot_is_end(
        slot_bytes(at.disk, #[trigger] at.front[i]),
    ) by {
        let last = at.front.len() - 1;
        assert(all.take(at.front.len() as int)[i] == all[i]);
        assert(all.take(at.front.len() as int)[last] == all[last]);
    }
    volume.lemma_listing_goes_on::<V>(at.disk, at.front, first);
}

impl FatVolume {
    /// A listing to a visitor that never has enough goes on to a slot that was
    /// never used.
    proof fn lemma_listing_goes_on<V: LongNameVisitor>(
        self,
        disk: Disk,
        slots: Seq<DirectorySlot>,
        state: Listing<V::State>,
    )
        requires
            never_has_enough::<V>(),
            forall|i: int|
                0 <= i < slots.len() ==> !slot_is_end(slot_bytes(disk, #[trigger] slots[i])),
        ensures
            !self.told::<LongNames<V>>(disk, slots, state).over,
        decreases slots.len(),
    {
        if slots.len() > 0 {
            let before = slots.drop_last();
            assert forall|i: int| 0 <= i < before.len() implies !slot_is_end(
                slot_bytes(disk, #[trigger] before[i]),
            ) by {
                assert(before[i] == slots[i]);
            }
            self.lemma_listing_goes_on::<V>(disk, before, state);
            assert(slots.last() == slots[slots.len() - 1]);
        }
    }

    /// Does a listing of the directory, which is made of `front`, `slots` and
    /// `back`, show `entry` under this long name once it comes to `slots`, unless
    /// it ends before that?
    pub open spec fn lists_entry<V: LongNameVisitor>(
        self,
        disk: Disk,
        dir: ClusterId,
        front: Seq<DirectorySlot>,
        slots: Seq<DirectorySlot>,
        back: Seq<DirectorySlot>,
        entry: EntryView,
        name: Seq<char>,
        first: Listing<V::State>,
    ) -> bool {
        let before = self.told::<LongNames<V>>(disk, front, first);
        let shown = self.told::<LongNames<V>>(disk, front + slots, first);
        &&& slots.len() == Self::slots_for(name)
        &&& self.visited::<LongNames<V>>(disk, dir, first) matches Some(visit) && visit.state
            == self.told::<LongNames<V>>(disk, front + slots + back, first).state
        &&& !before.over ==> (shown.state.seen, shown.over) == V::named(
            before.state.seen,
            entry,
            Some(name),
        )
    }
}

} // verus!
