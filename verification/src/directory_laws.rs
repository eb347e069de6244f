//! What holds of a directory after an entry was written to it or deleted from
//! it.

use crate::alias::{alias_count, candidate};
use crate::allocation::HintSearch;
use crate::block::{BlockCache, BlockDevice, BlockIdx, Disk};
use crate::creation::{chain_bytes, entry_chain, placed, with_slots};
use crate::deletion::{deletion_order, with_deletions, with_slot, Pending, SlotSearch};
use crate::directory::{end_link, slot_bytes, slot_place, Cursor, DirectorySlot, Step};
use crate::entry::{
    entry_bytes, slot_entry, slot_is_end, slot_is_lfn, slot_is_valid, slot_lfn, Attributes,
    ClusterId, DirEntry, EntryView, FatType,
};
use crate::free_slots::FreeOutcome;
use crate::iterate::{Visit, Watcher};
use crate::laws::{
    distinct_slots, law_deletions_leave_others, law_dir_entry_reads_back, law_slot_reads_back,
    law_slots_leave_others, law_slots_read_back, law_zeroed, lemma_deletion_order,
    lemma_deletion_stays, lemma_entry_layout, lemma_entry_parts, slot_aligned, storable_entry, whole_blocks,
};
use crate::lfn_buffer::utf8_length;
use crate::listing::{Listing, LongNameVisitor, LongNames};
use crate::long_lookup::{LongNameFinder, LongSought};
use crate::long_name::{long_name_length, reads_as};
use crate::lookup::{ShortNameFinder, Sought};
use crate::make_dir::{dir_entry, first_dir_block, parent_reference};
use crate::name::{csum_of, parent_dir_name, short_name_of, this_dir_name};
use crate::placing::law_found_slots;
use crate::round_trip::{
    gathered_pieces, law_written_name_is_found, law_written_name_is_listed,
    law_written_slots_are_found, lemma_chain_slot, observed_pieces, shown_pieces,
};
use crate::table::Link;
use crate::time::{fat_date, fat_time, timestamp_of, Timestamp};
use crate::volume::FatVolume;
use crate::walk::{law_walk_serves_all, Told};
use vstd::prelude::*;

verus! {

impl FatVolume {
    /// The disk once an entry with a long name was written into `slots`.
    pub open spec fn with_named_entry(
        self,
        disk: Disk,
        slots: Seq<DirectorySlot>,
        name: Seq<char>,
        entry: EntryView,
    ) -> Disk {
        with_slots(disk, slots, entry_chain(name, entry, self.fat_type()), slots.len())
    }

    /// Can `slots` take an entry with this long name? They are as many as it
    /// takes, they are part of the region of the root directory or of clusters
    /// that are in use, and none of them comes twice.
    pub open spec fn slots_fit(
        self,
        disk: Disk,
        slots: Seq<DirectorySlot>,
        name: Seq<char>,
    ) -> bool {
        &&& slots.len() == Self::slots_for(name)
        &&& distinct_slots(slots)
        &&& forall|i: int|
            0 <= i < slots.len() ==> self.holds_data(disk, (#[trigger] slots[i]).block.0 as int)
    }

    /// Is this a sound volume, with a directory that begins in `dir`?
    pub open spec fn is_sound(self, disk: Disk, dir: ClusterId) -> bool {
        &&& self.laid_out()
        &&& whole_blocks(disk)
        &&& self.sound_table(disk)
        &&& self.is_directory_start(disk, dir)
        &&& self.dir_in_reach(dir)
    }

    /// An entry as it is read back once it was written into `slot`.
    pub open spec fn as_read(self, entry: EntryView, slot: DirectorySlot) -> EntryView {
        slot_entry(
            entry_bytes(entry, self.fat_type()),
            self.fat_type(),
            slot.block.0,
            slot.offset,
        )
    }

    /// The slots of an entry hold what was written.
    pub proof fn lemma_named_entry(
        self,
        disk: Disk,
        slots: Seq<DirectorySlot>,
        name: Seq<char>,
        entry: EntryView,
    )
        requires
            whole_blocks(disk),
            self.slots_fit(disk, slots, name),
            long_name_length(name) is Ok,
            entry.name.len() == 11,
        ensures
            ({
                let after = self.with_named_entry(disk, slots, name, entry);
                let raws = entry_chain(name, entry, self.fat_type());
                &&& raws.len() == slots.len()
                &&& raws.drop_last() == chain_bytes(name, csum_of(entry.name))
                &&& raws.last() == entry_bytes(entry, self.fat_type())
                &&& raws.last().take(11) == entry.name
                &&& raws.last()[0] == entry.name[0]
                &&& whole_blocks(after)
                &&& forall|i: int|
                    0 <= i < slots.len() ==> slot_bytes(after, #[trigger] slots[i]) == raws[i]
            }),
    {
        let raws = entry_chain(name, entry, self.fat_type());
        let chain = chain_bytes(name, csum_of(entry.name));
        lemma_entry_layout(entry, self.fat_type());
        assert(raws.drop_last() =~= chain);
        assert(raws.last().take(11)[0] == raws.last()[0]);
        assert forall|i: int| 0 <= i < raws.len() implies (#[trigger] raws[i]).len() == 32 by {
            if i < chain.len() {
                lemma_chain_slot(name, csum_of(entry.name), i);
                assert(raws[i] == chain[i]);
            }
        }
        assert forall|i: int| 0 <= i < slots.len() implies slot_bytes(
            self.with_named_entry(disk, slots, name, entry),
            #[trigger] slots[i],
        ) == raws[i] by {
            law_slots_read_back(disk, slots, raws, slots.len(), i);
        }
        law_slots_read_back(disk, slots, raws, slots.len(), 0);
    }

    /// Writing slots of directories leaves the table as it was.
    pub proof fn lemma_table_stays(
        self,
        disk: Disk,
        slots: Seq<DirectorySlot>,
        raws: Seq<Seq<u8>>,
        n: nat,
        c: ClusterId,
    )
        requires
            self.laid_out(),
            self.in_volume(c),
            n <= slots.len(),
            forall|i: int|
                0 <= i < slots.len() ==> self.holds_data(
                    disk,
                    (#[trigger] slots[i]).block.0 as int,
                ),
        ensures
            self.entry(with_slots(disk, slots, raws, n), c) == self.entry(disk, c),
        decreases n,
    {
        self.lemma_entry_place(c);
        if n > 0 {
            self.lemma_table_stays(disk, slots, raws, (n - 1) as nat, c);
            self.lemma_data_behind_tables(disk, slots[n - 1].block.0 as int);
        }
    }

    /// What holds data stands behind the tables.
    proof fn lemma_data_behind_tables(self, disk: Disk, block: int)
        requires
            self.laid_out(),
            self.holds_data(disk, block),
        ensures
            self.lba_start.0 + self.behind_tables() <= block,
    {
        if !(self.lba_start.0 + self.behind_tables() <= block < self.lba_start.0
            + self.first_data_block.0) {
            let c = choose|c: ClusterId| #[trigger]
                self.in_use(disk, c) && self.block_of(c) <= block < self.block_of(c)
                    + self.blocks_per_cluster;
            self.lemma_cluster_place(c);
        }
    }

    /// Writing an entry does not change which slots a directory is made of.
    pub proof fn lemma_walk_stays(
        self,
        disk: Disk,
        dir: ClusterId,
        slots: Seq<DirectorySlot>,
        raws: Seq<Seq<u8>>,
        n: nat,
        k: nat,
    )
        requires
            self.is_sound(disk, dir),
            n <= slots.len(),
            forall|i: int|
                0 <= i < slots.len() ==> self.holds_data(
                    disk,
                    (#[trigger] slots[i]).block.0 as int,
                ),
            self.walked(disk, self.dir_start(dir), k) is Some,
        ensures
            self.walked(with_slots(disk, slots, raws, n), self.dir_start(dir), k) == self.walked(
                disk,
                self.dir_start(dir),
                k,
            ),
    {
        let after = with_slots(disk, slots, raws, n);
        let w = self.walked(disk, self.dir_start(dir), k)->0;
        self.lemma_walk_in_use(disk, dir, k);
        assert forall|i: int| 0 <= i < w.clusters.len() implies self.link(
            after,
            #[trigger] w.clusters[i],
        ) == self.link(disk, w.clusters[i]) by {
            assert(self.in_use(disk, w.clusters[i]));
            self.lemma_table_stays(disk, slots, raws, n, w.clusters[i]);
        }
        self.lemma_same_walk(disk, after, self.dir_start(dir), k);
    }

    /// Someone who looks for a long name goes on looking for that name.
    pub proof fn lemma_told_name(self, disk: Disk, slots: Seq<DirectorySlot>, state: LongSought)
        ensures
            self.told::<LongNameFinder>(disk, slots, state).state.name == state.name,
            self.told::<LongNameFinder>(disk, slots, state).state.fold_case == state.fold_case,
        decreases slots.len(),
    {
        if slots.len() > 0 {
            self.lemma_told_name(disk, slots.drop_last(), state);
        }
    }

    /// Someone who looks for a long name learns from the slots of a name what
    /// its pieces tell.
    pub proof fn lemma_told_pieces(
        self,
        disk: Disk,
        slots: Seq<DirectorySlot>,
        raws: Seq<Seq<u8>>,
        entries: Seq<EntryView>,
        state: LongSought,
        n: nat,
    )
        requires
            n <= slots.len(),
            n <= raws.len(),
            forall|i: int|
                0 <= i < n ==> slot_bytes(disk, #[trigger] slots[i]) == raws[i] && slot_is_valid(
                    raws[i],
                ) && entries[i] == slot_entry(
                    raws[i],
                    self.fat_type(),
                    slots[i].block.0,
                    slots[i].offset,
                ),
            shown_pieces(state, raws, entries, n) is Some,
        ensures
            ({
                let told = self.told::<LongNameFinder>(disk, slots.take(n as int), state);
                &&& !told.over
                &&& Some(told.state) == shown_pieces(state, raws, entries, n)
            }),
        decreases n,
    {
        if n > 0 {
            self.lemma_told_pieces(disk, slots, raws, entries, state, (n - 1) as nat);
            assert(slots.take(n as int).drop_last() =~= slots.take(n - 1));
            assert(slots.take(n as int).last() == slots[n - 1]);
            assert(slot_bytes(disk, slots[n - 1]) == raws[n - 1]);
        } else {
            assert(slots.take(0) =~= Seq::empty());
        }
    }
}

/// An entry that was written under a long name is found by that name; and, by
/// someone who does not care about case, by any name that differs by no more than
/// case. This is so unless the search ends in front of its slots, at an entry
/// that was found before it or at a slot that was never used.
pub proof fn law_created_name_is_found(
    volume: FatVolume,
    disk: Disk,
    dir: ClusterId,
    front: Seq<DirectorySlot>,
    slots: Seq<DirectorySlot>,
    name: Seq<char>,
    entry: EntryView,
    sought: Seq<char>,
    fold_case: bool,
)
    requires
        volume.is_sound(disk, dir),
        volume.slots_fit(disk, slots, name),
        volume.follows(disk, dir, front, slots),
        long_name_length(name) is Ok,
        reads_as(sought, name, fold_case),
        entry.name.len() == 11,
        entry.name[0] != 0 && entry.name[0] != 0xE5,
        entry.attributes.0 % 16 != 15,
        !volume.told::<LongNameFinder>(
            volume.with_named_entry(disk, slots, name, entry),
            front,
            LongSought::start(sought, fold_case),
        ).over,
    ensures
        ({
            let after = volume.with_named_entry(disk, slots, name, entry);
            &&& volume.long_name_lookup(after, dir, sought, fold_case) matches Some(visit)
            &&& visit.end == Link::End
            &&& visit.state.found == Some(volume.as_read(entry, slots.last()))
        }),
{
    let after = volume.with_named_entry(disk, slots, name, entry);
    let start = volume.dir_start(dir);
    let first = LongSought::start(sought, fold_case);
    let ft = volume.fat_type();
    let k = choose|k: nat|
        (#[trigger] volume.walked(disk, start, k)) matches Some(w) && w.slots == front + slots;
    volume.lemma_walk_stays(disk, dir, slots, entry_chain(name, entry, ft), slots.len(), k);
    volume.lemma_named_entry(disk, slots, name, entry);
    let raws = chain_bytes(name, csum_of(entry.name));
    let all = entry_chain(name, entry, ft);
    let count = raws.len();
    let waiting = volume.told::<LongNameFinder>(after, front, first).state;
    volume.lemma_told_concat::<LongNameFinder>(after, front, slots, first);
    volume.lemma_told_name(after, front, first);
    let entries = Seq::new(
        count,
        |i: int| slot_entry(raws[i], ft, slots[i].block.0, slots[i].offset),
    );
    let read = volume.as_read(entry, slots.last());
    assert(read.name == entry.name);
    lemma_entry_layout(entry, ft);
    assert(!slot_is_lfn(all.last()));
    law_written_name_is_found(waiting, name, entries, read, all.last());
    assert forall|i: int| 0 <= i < count implies slot_bytes(after, #[trigger] slots[i]) == raws[i]
        && slot_is_valid(raws[i]) && entries[i] == slot_entry(
        raws[i],
        ft,
        slots[i].block.0,
        slots[i].offset,
    ) by {
        lemma_chain_slot(name, csum_of(entry.name), i);
        assert(raws[i] == all.drop_last()[i]);
    }
    volume.lemma_told_pieces(after, slots, raws, entries, waiting, count);
    assert(slots.take(count as int) =~= slots.drop_last());
    assert(slot_bytes(after, slots[count as int]) == all.last());
    volume.lemma_visit_is_over::<LongNameFinder>(after, start, first, k);
}

/// Whoever writes an entry under a long name and then looks for that name finds
/// the entry, in the slot that the operation that wrote it told. This is so unless
/// the search ends in front of its slots.
pub proof fn law_create_then_find<D: BlockDevice>(
    volume: FatVolume,
    before: BlockCache<D>,
    dir: ClusterId,
    name: Seq<char>,
    entry: EntryView,
    after: BlockCache<D>,
    left: FatVolume,
    written: DirEntry,
)
    requires
        volume.is_sound(before.disk(), dir),
        volume.walk_in_reach(before.disk(), dir),
        volume.creation_in_reach(before.disk(), dir, name),
        volume.writes_entry(before, dir, name, entry, after, left, Ok(written)),
        entry.name.len() == 11,
        entry.name[0] != 0 && entry.name[0] != 0xE5,
        entry.attributes.0 % 16 != 15,
    ensures
        exists|front: Seq<DirectorySlot>, slots: Seq<DirectorySlot>|
            {
                &&& #[trigger] volume.follows(after.disk(), dir, front, slots)
                &&& slots.len() == FatVolume::slots_for(name)
                &&& slots.last() == (DirectorySlot {
                    block: written.entry_block,
                    offset: written.entry_offset,
                })
                &&& distinct_slots(front + slots)
                &&& !volume.told::<LongNameFinder>(
                    after.disk(),
                    front,
                    LongSought::start(name, false),
                ).over ==> {
                    &&& volume.long_name_lookup(after.disk(), dir, name, false) matches Some(visit)
                    &&& visit.end == Link::End
                    &&& visit.state.found == Some(volume.as_read(entry, slots.last()))
                }
            },
{
    let disk = before.disk();
    let needed = FatVolume::slots_for(name);
    let searches = choose|searches: Seq<HintSearch>|
        {
            let search = #[trigger] volume.free_slots(disk, dir, needed, searches);
            &&& search.outcome matches FreeOutcome::Found(slots) && {
                &&& written@ == placed(entry, slots.last())
                &&& after.disk() == with_slots(
                    search.disk,
                    slots,
                    entry_chain(name, entry, volume.fat_type()),
                    needed,
                )
            }
        };
    let search = volume.free_slots(disk, dir, needed, searches);
    let slots = search.outcome->Found_0;
    law_found_slots(volume, disk, dir, needed, searches);
    let front = choose|front: Seq<DirectorySlot>| volume.follows(search.disk, dir, front, slots);
    assert(volume.slots_fit(search.disk, slots, name));
    assert(after.disk() == volume.with_named_entry(search.disk, slots, name, entry));
    let k = choose|k: nat|
        (#[trigger] volume.walked(search.disk, volume.dir_start(dir), k)) matches Some(w) && w.slots
            == front + slots;
    volume.lemma_walk_stays(
        search.disk,
        dir,
        slots,
        entry_chain(name, entry, volume.fat_type()),
        needed,
        k,
    );
    assert(volume.follows(after.disk(), dir, front, slots));
    volume.lemma_follows_distinct(search.disk, dir, front, slots);
    if !volume.told::<LongNameFinder>(
        after.disk(),
        front,
        LongSought::start(name, false),
    ).over {
        law_created_name_is_found(
            volume,
            search.disk,
            dir,
            front,
            slots,
            name,
            entry,
            name,
            false,
        );
    }
}

/// A name that an entry was written under is taken, and so is any name that
/// differs from it by no more than case; with the same exceptions.
pub proof fn law_created_name_is_taken(
    volume: FatVolume,
    disk: Disk,
    dir: ClusterId,
    front: Seq<DirectorySlot>,
    slots: Seq<DirectorySlot>,
    name: Seq<char>,
    entry: EntryView,
    sought: Seq<char>,
)
    requires
        volume.is_sound(disk, dir),
        volume.slots_fit(disk, slots, name),
        volume.follows(disk, dir, front, slots),
        long_name_length(name) is Ok,
        reads_as(sought, name, true),
        entry.name.len() == 11,
        entry.name[0] != 0 && entry.name[0] != 0xE5,
        entry.attributes.0 % 16 != 15,
        !volume.told::<LongNameFinder>(
            volume.with_named_entry(disk, slots, name, entry),
            front,
            LongSought::start(sought, true),
        ).over,
    ensures
        volume.name_taken(
            volume.with_named_entry(disk, slots, name, entry),
            dir,
            sought,
        ) == Some((true, Link::End)),
{
    law_created_name_is_found(volume, disk, dir, front, slots, name, entry, sought, true);
}

/// An entry that was written is read back with the name, the attributes and the
/// size that it was written with, and with its place; with its first cluster, where
/// the stored form can express that; and with its times, as far as the stored form
/// can express them.
pub proof fn law_created_entry_is_kept(volume: FatVolume, entry: EntryView, slot: DirectorySlot)
    requires
        entry.name.len() == 11,
    ensures
        ({
            let read = volume.as_read(entry, slot);
            &&& read.name == entry.name
            &&& read.attributes == entry.attributes
            &&& read.size == entry.size
            &&& read.block == slot.block.0
            &&& read.offset == slot.offset
            &&& read.ctime == timestamp_of(fat_date(entry.ctime), fat_time(entry.ctime))
            &&& read.mtime == timestamp_of(fat_date(entry.mtime), fat_time(entry.mtime))
            &&& (volume.fat_type() == FatType::Fat16 ==> entry.cluster.0 <= 0xFFFF) && (
            entry.attributes.names_directory() ==> entry.cluster.0 != 0) ==> read.cluster
                == entry.cluster
        }),
{
    lemma_entry_layout(entry, volume.fat_type());
    lemma_entry_parts(entry, volume.fat_type());
}

/// An entry that the stored form can express is read back as it was written.
pub proof fn law_created_entry_is_exact(volume: FatVolume, entry: EntryView, slot: DirectorySlot)
    requires
        storable_entry(entry, volume.fat_type()),
    ensures
        volume.as_read(entry, slot) == placed(entry, slot),
{
    let ft = volume.fat_type();
    law_dir_entry_reads_back(placed(entry, slot), ft);
    assert(entry_bytes(placed(entry, slot), ft) == entry_bytes(entry, ft));
}

impl FatVolume {
    /// Someone who looks for a short name learns nothing until it is found.
    pub proof fn lemma_told_nothing(
        self,
        disk: Disk,
        slots: Seq<DirectorySlot>,
        state: Sought<Seq<u8>>,
    )
        ensures
            ({
                let told = self.told::<ShortNameFinder>(disk, slots, state);
                !told.over ==> told.state == state
            }),
        decreases slots.len(),
    {
        if slots.len() > 0 {
            self.lemma_told_nothing(disk, slots.drop_last(), state);
        }
    }

    /// Someone who looks for a short name goes past slots that do not read so.
    proof fn lemma_told_past(
        self,
        disk: Disk,
        slots: Seq<DirectorySlot>,
        state: Sought<Seq<u8>>,
    )
        requires
            forall|i: int|
                0 <= i < slots.len() ==> {
                    let raw = slot_bytes(disk, #[trigger] slots[i]);
                    slot_is_valid(raw) && raw.take(11) != state.name
                },
        ensures
            !self.told::<ShortNameFinder>(disk, slots, state).over,
        decreases slots.len(),
    {
        if slots.len() > 0 {
            let before = slots.drop_last();
            assert forall|i: int| 0 <= i < before.len() implies {
                let raw = slot_bytes(disk, #[trigger] before[i]);
                slot_is_valid(raw) && raw.take(11) != state.name
            } by {
                assert(before[i] == slots[i]);
            }
            self.lemma_told_past(disk, before, state);
            self.lemma_told_nothing(disk, before, state);
            assert(slots.last() == slots[slots.len() - 1]);
        }
    }
}

/// An entry that was written under a long name is found by its short name, too.
/// This is so unless the search ends in front of its slots, at an entry of the
/// same name or at a slot that was never used; or a piece of the long name reads
/// like the short one.
pub proof fn law_created_alias_is_found(
    volume: FatVolume,
    disk: Disk,
    dir: ClusterId,
    front: Seq<DirectorySlot>,
    slots: Seq<DirectorySlot>,
    name: Seq<char>,
    entry: EntryView,
)
    requires
        volume.is_sound(disk, dir),
        volume.slots_fit(disk, slots, name),
        volume.follows(disk, dir, front, slots),
        long_name_length(name) is Ok,
        entry.name.len() == 11,
        entry.name[0] != 0 && entry.name[0] != 0xE5,
        !volume.told::<ShortNameFinder>(
            volume.with_named_entry(disk, slots, name, entry),
            front,
            (Sought { name: entry.name, found: None }),
        ).over,
        forall|i: int|
            0 <= i < chain_bytes(name, csum_of(entry.name)).len() ==> (#[trigger] chain_bytes(
                name,
                csum_of(entry.name),
            )[i]).take(11) != entry.name,
    ensures
        ({
            let after = volume.with_named_entry(disk, slots, name, entry);
            &&& volume.short_name_lookup(after, dir, entry.name) matches Some(visit)
            &&& visit.end == Link::End
            &&& visit.state.found == Some(volume.as_read(entry, slots.last()))
        }),
{
    let after = volume.with_named_entry(disk, slots, name, entry);
    let start = volume.dir_start(dir);
    let first = Sought { name: entry.name, found: None };
    let ft = volume.fat_type();
    let k = choose|k: nat|
        (#[trigger] volume.walked(disk, start, k)) matches Some(w) && w.slots == front + slots;
    volume.lemma_walk_stays(disk, dir, slots, entry_chain(name, entry, ft), slots.len(), k);
    volume.lemma_named_entry(disk, slots, name, entry);
    let raws = chain_bytes(name, csum_of(entry.name));
    let all = entry_chain(name, entry, ft);
    let pieces = slots.drop_last();
    volume.lemma_told_concat::<ShortNameFinder>(after, front, slots, first);
    volume.lemma_told_nothing(after, front, first);
    assert forall|i: int| 0 <= i < pieces.len() implies {
        let raw = slot_bytes(after, #[trigger] pieces[i]);
        slot_is_valid(raw) && raw.take(11) != entry.name
    } by {
        lemma_chain_slot(name, csum_of(entry.name), i);
        assert(pieces[i] == slots[i]);
        assert(raws[i] == all.drop_last()[i]);
    }
    volume.lemma_told_past(after, pieces, first);
    volume.lemma_told_nothing(after, pieces, first);
    assert(slot_bytes(after, slots[slots.len() - 1]) == all.last());
    volume.lemma_visit_is_over::<ShortNameFinder>(after, start, first, k);
}

/// An entry that was written without a long name is found by its short name,
/// unless the search ends in front of its slot, at an entry of the same name or
/// at a slot that was never used.
pub proof fn law_added_entry_is_found(
    volume: FatVolume,
    disk: Disk,
    dir: ClusterId,
    front: Seq<DirectorySlot>,
    slot: DirectorySlot,
    entry: EntryView,
)
    requires
        volume.is_sound(disk, dir),
        slot_aligned(slot),
        volume.holds_data(disk, slot.block.0 as int),
        volume.follows(disk, dir, front, seq![slot]),
        entry.name.len() == 11,
        entry.name[0] != 0 && entry.name[0] != 0xE5,
        !volume.told::<ShortNameFinder>(
            with_slot(disk, slot, entry_bytes(entry, volume.fat_type())),
            front,
            (Sought { name: entry.name, found: None }),
        ).over,
    ensures
        ({
            let after = with_slot(disk, slot, entry_bytes(entry, volume.fat_type()));
            &&& volume.short_name_lookup(after, dir, entry.name) matches Some(visit)
            &&& visit.end == Link::End
            &&& visit.state.found == Some(volume.as_read(entry, slot))
        }),
{
    let ft = volume.fat_type();
    let raw = entry_bytes(entry, ft);
    let after = with_slot(disk, slot, raw);
    let start = volume.dir_start(dir);
    let first = Sought { name: entry.name, found: None };
    let slots = seq![slot];
    let k = choose|k: nat|
        (#[trigger] volume.walked(disk, start, k)) matches Some(w) && w.slots == front + slots;
    lemma_entry_layout(entry, ft);
    assert(after == with_slots(disk, slots, seq![raw], 1)) by {
        reveal_with_fuel(with_slots, 2);
    }
    volume.lemma_walk_stays(disk, dir, slots, seq![raw], 1, k);
    law_slot_reads_back(disk, slot, raw, slot);
    assert(raw.take(11)[0] == raw[0]);
    volume.lemma_told_concat::<ShortNameFinder>(after, front, slots, first);
    volume.lemma_told_nothing(after, front, first);
    assert(slots.drop_last() =~= Seq::empty());
    reveal_with_fuel(FatVolume::told, 2);
    volume.lemma_visit_is_over::<ShortNameFinder>(after, start, first, k);
}

impl FatVolume {
    /// Slots that hold the same tell the same.
    pub proof fn lemma_told_same<W: Watcher>(
        self,
        disk: Disk,
        other: Disk,
        slots: Seq<DirectorySlot>,
        state: W::State,
    )
        requires
            forall|i: int|
                0 <= i < slots.len() ==> slot_bytes(other, #[trigger] slots[i]) == slot_bytes(
                    disk,
                    slots[i],
                ),
        ensures
            self.told::<W>(other, slots, state) == self.told::<W>(disk, slots, state),
        decreases slots.len(),
    {
        if slots.len() > 0 {
            let before = slots.drop_last();
            assert forall|i: int| 0 <= i < before.len() implies slot_bytes(
                other,
                #[trigger] before[i],
            ) == slot_bytes(disk, before[i]) by {
                assert(before[i] == slots[i]);
            }
            self.lemma_told_same::<W>(disk, other, before, state);
            assert(slots.last() == slots[slots.len() - 1]);
        }
    }

    /// Slots that are deleted tell nothing.
    pub proof fn lemma_told_deleted<W: Watcher>(
        self,
        disk: Disk,
        slots: Seq<DirectorySlot>,
        state: W::State,
    )
        requires
            forall|i: int|
                0 <= i < slots.len() ==> {
                    let raw = slot_bytes(disk, #[trigger] slots[i]);
                    !slot_is_valid(raw) && !slot_is_end(raw)
                },
        ensures
            self.told::<W>(disk, slots, state) == (Told { state, over: false }),
        decreases slots.len(),
    {
        if slots.len() > 0 {
            let before = slots.drop_last();
            assert forall|i: int| 0 <= i < before.len() implies {
                let raw = slot_bytes(disk, #[trigger] before[i]);
                !slot_is_valid(raw) && !slot_is_end(raw)
            } by {
                assert(before[i] == slots[i]);
            }
            self.lemma_told_deleted::<W>(disk, before, state);
            assert(slots.last() == slots[slots.len() - 1]);
        }
    }

    /// Deleting slots of directories leaves the table as it was.
    pub proof fn lemma_deletions_leave_table(
        self,
        disk: Disk,
        slots: Seq<DirectorySlot>,
        n: nat,
        c: ClusterId,
    )
        requires
            self.laid_out(),
            self.in_volume(c),
            n <= slots.len(),
            forall|i: int|
                0 <= i < slots.len() ==> self.holds_data(
                    disk,
                    (#[trigger] slots[i]).block.0 as int,
                ),
        ensures
            self.entry(with_deletions(disk, slots, n), c) == self.entry(disk, c),
        decreases n,
    {
        self.lemma_entry_place(c);
        if n > 0 {
            self.lemma_deletions_leave_table(disk, slots, (n - 1) as nat, c);
            self.lemma_data_behind_tables(disk, slots[n - 1].block.0 as int);
        }
    }

    /// Deleting entries does not change which slots a directory is made of, nor
    /// how it ends.
    pub proof fn lemma_deletions_leave_walk(
        self,
        disk: Disk,
        dir: ClusterId,
        slots: Seq<DirectorySlot>,
        n: nat,
        k: nat,
    )
        requires
            self.is_sound(disk, dir),
            n <= slots.len(),
            forall|i: int|
                0 <= i < slots.len() ==> self.holds_data(
                    disk,
                    (#[trigger] slots[i]).block.0 as int,
                ),
            self.walk_ends(disk, dir, k),
        ensures
            ({
                let after = with_deletions(disk, slots, n);
                let w = self.walked(disk, self.dir_start(dir), k)->0;
                &&& self.walked(after, self.dir_start(dir), k) == Some(w)
                &&& self.step(after, w.at) == self.step(disk, w.at)
            }),
    {
        let after = with_deletions(disk, slots, n);
        let w = self.walked(disk, self.dir_start(dir), k)->0;
        self.lemma_walk_in_use(disk, dir, k);
        assert forall|i: int| 0 <= i < w.clusters.len() implies self.link(
            after,
            #[trigger] w.clusters[i],
        ) == self.link(disk, w.clusters[i]) by {
            assert(self.in_use(disk, w.clusters[i]));
            self.lemma_deletions_leave_table(disk, slots, n, w.clusters[i]);
        }
        self.lemma_same_walk(disk, after, self.dir_start(dir), k);
        if let Some(c) = w.at.cluster {
            self.lemma_deletions_leave_table(disk, slots, n, c);
        }
    }
}

/// Once an entry was deleted, everyone who looks through the directory sees what
/// they would see if its slots were not there.
pub proof fn law_deleted_entry_is_not_seen<W: Watcher>(
    volume: FatVolume,
    disk: Disk,
    dir: ClusterId,
    k: nat,
    front: Seq<DirectorySlot>,
    slots: Seq<DirectorySlot>,
    back: Seq<DirectorySlot>,
    state: W::State,
)
    requires
        volume.is_sound(disk, dir),
        volume.walk_ends(disk, dir, k),
        (volume.walked(disk, volume.dir_start(dir), k)->0).slots == front + slots + back,
        distinct_slots(front + slots + back),
        slots.len() > 0,
        forall|i: int|
            0 <= i < slots.len() ==> volume.holds_data(
                disk,
                (#[trigger] slots[i]).block.0 as int,
            ),
    ensures
        ({
            let after = with_deletions(disk, deletion_order(slots), slots.len());
            let w = volume.walked(disk, volume.dir_start(dir), k)->0;
            let told = volume.told::<W>(disk, front + back, state);
            volume.visited::<W>(after, dir, state) == Some(
                Visit {
                    state: told.state,
                    end: if told.over {
                        Link::End
                    } else {
                        end_link(volume.step(disk, w.at)->End_0)
                    },
                },
            )
        }),
{
    let order = deletion_order(slots);
    let n = slots.len();
    let after = with_deletions(disk, order, n);
    let start = volume.dir_start(dir);
    let all = front + slots + back;
    assert forall|i: int| 0 <= i < slots.len() implies #[trigger] slots[i] == all[front.len()
        + i] by {}
    assert forall|i: int| 0 <= i < front.len() implies #[trigger] front[i] == all[i] by {}
    assert forall|i: int| 0 <= i < back.len() implies #[trigger] back[i] == all[front.len()
        + slots.len() + i] by {}
    assert(distinct_slots(slots));
    lemma_deletion_order(slots);
    assert forall|i: int| 0 <= i < order.len() implies volume.holds_data(
        disk,
        (#[trigger] order[i]).block.0 as int,
    ) by {
        assert(order.contains(order[i]));
        let j = choose|j: int| 0 <= j < slots.len() && slots[j] == order[i];
        assert(volume.holds_data(disk, slots[j].block.0 as int));
    }
    volume.lemma_deletions_leave_walk(disk, dir, order, n, k);
    assert forall|j: int| 0 <= j < all.len() && !(front.len() <= j < front.len()
        + slots.len()) implies slot_bytes(after, #[trigger] all[j]) == slot_bytes(disk, all[j]) by {
        assert forall|i: int| 0 <= i < n implies slot_aligned(#[trigger] order[i]) && order[i]
            != all[j] by {
            assert(order.contains(order[i]));
            let m = choose|m: int| 0 <= m < slots.len() && slots[m] == order[i];
            assert(all[front.len() + m] == order[i]);
        }
        law_deletions_leave_others(disk, order, n, all[j]);
    }
    assert forall|i: int| 0 <= i < slots.len() implies {
        let raw = slot_bytes(after, #[trigger] slots[i]);
        !slot_is_valid(raw) && !slot_is_end(raw)
    } by {
        if i == slots.len() - 1 {
            lemma_deletion_stays(disk, order, n, 0);
        } else {
            assert(order[i + 1] == slots[i]);
            lemma_deletion_stays(disk, order, n, i + 1);
        }
    }
    volume.lemma_told_same::<W>(disk, after, front, state);
    volume.lemma_told_concat::<W>(after, front + slots, back, state);
    volume.lemma_told_concat::<W>(after, front, slots, state);
    volume.lemma_told_concat::<W>(disk, front, back, state);
    let known = volume.told::<W>(disk, front, state).state;
    volume.lemma_told_deleted::<W>(after, slots, known);
    volume.lemma_told_same::<W>(disk, after, back, known);
    volume.lemma_visit_to_the_end::<W>(after, start, state, k);
}

impl FatVolume {
    /// A listing keeps its buffer as large as it is.
    pub proof fn lemma_told_capacity<V: LongNameVisitor>(
        self,
        disk: Disk,
        slots: Seq<DirectorySlot>,
        state: Listing<V::State>,
    )
        ensures
            self.told::<LongNames<V>>(disk, slots, state).state.buffer.capacity
                == state.buffer.capacity,
        decreases slots.len(),
    {
        if slots.len() > 0 {
            self.lemma_told_capacity::<V>(disk, slots.drop_last(), state);
        }
    }

    /// A listing gathers the pieces of a name from its slots.
    proof fn lemma_told_gathered<V: LongNameVisitor>(
        self,
        disk: Disk,
        slots: Seq<DirectorySlot>,
        raws: Seq<Seq<u8>>,
        state: Listing<V::State>,
        n: nat,
    )
        requires
            n <= slots.len(),
            n <= raws.len(),
            forall|i: int|
                0 <= i < n ==> slot_bytes(disk, #[trigger] slots[i]) == raws[i] && slot_is_valid(
                    raws[i],
                ) && slot_is_lfn(raws[i]),
        ensures
            ({
                let (gather, buffer) = gathered_pieces(state.gather, state.buffer, raws, n);
                self.told::<LongNames<V>>(disk, slots.take(n as int), state) == (Told {
                    state: Listing { gather, buffer, ..state },
                    over: false,
                })
            }),
        decreases n,
    {
        if n > 0 {
            self.lemma_told_gathered::<V>(disk, slots, raws, state, (n - 1) as nat);
            assert(slots.take(n as int).drop_last() =~= slots.take(n - 1));
            assert(slots.take(n as int).last() == slots[n - 1]);
            assert(slot_bytes(disk, slots[n - 1]) == raws[n - 1]);
        } else {
            assert(slots.take(0) =~= Seq::empty());
        }
    }
}

/// An entry that was written under a long name is listed under that name:
/// whoever is shown the slots in front of it, and then its own, is shown it
/// along with the name, given a buffer with enough room. This is so unless the
/// listing ends in front of its slots.
pub proof fn law_created_name_is_listed<V: LongNameVisitor>(
    volume: FatVolume,
    disk: Disk,
    front: Seq<DirectorySlot>,
    slots: Seq<DirectorySlot>,
    name: Seq<char>,
    entry: EntryView,
    first: Listing<V::State>,
)
    requires
        whole_blocks(disk),
        volume.slots_fit(disk, slots, name),
        long_name_length(name) is Ok,
        entry.name.len() == 11,
        entry.name[0] != 0 && entry.name[0] != 0xE5,
        entry.attributes.0 % 16 != 15,
        utf8_length(name) <= first.buffer.capacity,
        !volume.told::<LongNames<V>>(
            volume.with_named_entry(disk, slots, name, entry),
            front,
            first,
        ).over,
    ensures
        ({
            let after = volume.with_named_entry(disk, slots, name, entry);
            let before = volume.told::<LongNames<V>>(after, front, first);
            let told = volume.told::<LongNames<V>>(after, front + slots, first);
            (told.state.seen, told.over) == V::named(
                before.state.seen,
                volume.as_read(entry, slots.last()),
                Some(name),
            )
        }),
{
    let after = volume.with_named_entry(disk, slots, name, entry);
    let ft = volume.fat_type();
    let raws = chain_bytes(name, csum_of(entry.name));
    let all = entry_chain(name, entry, ft);
    let count = raws.len();
    let before = volume.told::<LongNames<V>>(after, front, first).state;
    let read = volume.as_read(entry, slots.last());
    volume.lemma_named_entry(disk, slots, name, entry);
    volume.lemma_told_concat::<LongNames<V>>(after, front, slots, first);
    volume.lemma_told_capacity::<V>(after, front, first);
    lemma_entry_layout(entry, ft);
    assert(read.name == entry.name);
    assert forall|i: int| 0 <= i < count implies slot_bytes(after, #[trigger] slots[i]) == raws[i]
        && slot_is_valid(raws[i]) && slot_is_lfn(raws[i]) by {
        lemma_chain_slot(name, csum_of(entry.name), i);
        assert(raws[i] == all.drop_last()[i]);
    }
    volume.lemma_told_gathered::<V>(after, slots, raws, before, count);
    law_written_name_is_listed(before.gather, before.buffer, name, entry.name);
    assert(slots.take(count as int) =~= slots.drop_last());
    assert(slot_bytes(after, slots[count as int]) == all.last());
    assert(!slot_is_lfn(all.last()));
}

/// Writing an entry leaves the other entries alone: whoever is shown slots that
/// are none of its own sees what was there before.
pub proof fn law_creation_leaves_others<W: Watcher>(
    volume: FatVolume,
    disk: Disk,
    slots: Seq<DirectorySlot>,
    name: Seq<char>,
    entry: EntryView,
    others: Seq<DirectorySlot>,
    state: W::State,
)
    requires
        whole_blocks(disk),
        volume.slots_fit(disk, slots, name),
        long_name_length(name) is Ok,
        entry.name.len() == 11,
        forall|i: int|
            0 <= i < others.len() ==> slot_aligned(#[trigger] others[i]) && !slots.contains(
                others[i],
            ),
    ensures
        volume.told::<W>(volume.with_named_entry(disk, slots, name, entry), others, state)
            == volume.told::<W>(disk, others, state),
{
    let after = volume.with_named_entry(disk, slots, name, entry);
    let ft = volume.fat_type();
    let all = entry_chain(name, entry, ft);
    let chain = chain_bytes(name, csum_of(entry.name));
    lemma_entry_layout(entry, ft);
    assert forall|i: int| 0 <= i < all.len() implies (#[trigger] all[i]).len() == 32 by {
        if i < chain.len() {
            lemma_chain_slot(name, csum_of(entry.name), i);
            assert(all[i] == chain[i]);
        }
    }
    assert forall|i: int| 0 <= i < others.len() implies slot_bytes(after, #[trigger] others[i])
        == slot_bytes(disk, others[i]) by {
        assert forall|j: int| 0 <= j < slots.len() implies slot_aligned(#[trigger] slots[j])
            && slots[j] != others[i] by {
            assert(slots.contains(slots[j]));
        }
        law_slots_leave_others(disk, slots, all, slots.len(), others[i]);
    }
    volume.lemma_told_same::<W>(disk, after, others, state);
}

/// What someone who looks for the slots of an entry has met.
pub struct SlotsMet {
    /// The slots of a long name, so far.
    pub pending: Pending,
    /// The slots of the entry, once it was met.
    pub found: Option<Seq<DirectorySlot>>,
    /// Was one of the slots the last one to look at?
    pub over: bool,
}

impl FatVolume {
    /// What someone who looks for the slots of `name` has met after one more
    /// slot.
    pub open spec fn met_one(
        self,
        disk: Disk,
        slot: DirectorySlot,
        pending: Pending,
        name: Seq<u8>,
    ) -> SlotsMet {
        let raw = slot_bytes(disk, slot);
        if slot_is_end(raw) {
            SlotsMet { pending, found: None, over: true }
        } else if !slot_is_valid(raw) {
            SlotsMet { pending: pending.cleared(), found: None, over: false }
        } else if slot_is_lfn(raw) {
            SlotsMet { pending: pending.observed(slot_lfn(raw), slot), found: None, over: false }
        } else if raw.take(11) == name {
            SlotsMet { pending, found: Some(pending.taken_by(name, slot)), over: true }
        } else {
            SlotsMet { pending: pending.cleared(), found: None, over: false }
        }
    }

    /// What someone who looks for the slots of `name` has met after a row of
    /// slots.
    pub open spec fn met(
        self,
        disk: Disk,
        slots: Seq<DirectorySlot>,
        pending: Pending,
        name: Seq<u8>,
    ) -> SlotsMet
        decreases slots.len(),
    {
        if slots.len() == 0 {
            SlotsMet { pending, found: None, over: false }
        } else {
            let before = self.met(disk, slots.drop_last(), pending, name);
            if before.over {
                before
            } else {
                self.met_one(disk, slots.last(), before.pending, name)
            }
        }
    }

    /// Meeting two rows is meeting the one and then the other.
    pub proof fn lemma_met_concat(
        self,
        disk: Disk,
        front: Seq<DirectorySlot>,
        back: Seq<DirectorySlot>,
        pending: Pending,
        name: Seq<u8>,
    )
        ensures
            ({
                let before = self.met(disk, front, pending, name);
                self.met(disk, front + back, pending, name) == if before.over {
                    before
                } else {
                    self.met(disk, back, before.pending, name)
                }
            }),
        decreases back.len(),
    {
        if back.len() == 0 {
            assert(front + back =~= front);
            self.lemma_not_met(disk, front, pending, name);
        } else {
            self.lemma_met_concat(disk, front, back.drop_last(), pending, name);
            assert((front + back).drop_last() =~= front + back.drop_last());
            assert((front + back).last() == back.last());
        }
    }

    /// Until the search is over, nothing was found.
    pub proof fn lemma_not_met(
        self,
        disk: Disk,
        slots: Seq<DirectorySlot>,
        pending: Pending,
        name: Seq<u8>,
    )
        ensures
            ({
                let met = self.met(disk, slots, pending, name);
                !met.over ==> met.found is None
            }),
        decreases slots.len(),
    {
        if slots.len() > 0 {
            self.lemma_not_met(disk, slots.drop_last(), pending, name);
        }
    }

    /// More steps than it takes change nothing.
    proof fn lemma_entry_slots_within(
        self,
        disk: Disk,
        at: Cursor,
        pending: Pending,
        name: Seq<u8>,
        n: nat,
        m: nat,
    )
        requires
            self.entry_slots_within(disk, at, pending, name, n) is Some,
            n <= m,
        ensures
            self.entry_slots_within(disk, at, pending, name, m) == self.entry_slots_within(
                disk,
                at,
                pending,
                name,
                n,
            ),
        decreases n,
    {
        let (n1, m1) = ((n - 1) as nat, (m - 1) as nat);
        match self.step(disk, at) {
            Step::Slot(slot, raw, next) => {
                let met = self.met_one(disk, slot, pending, name);
                if !met.over {
                    self.lemma_entry_slots_within(disk, next, met.pending, name, n1, m1);
                }
            },
            Step::Enter(next) => {
                self.lemma_entry_slots_within(disk, next, pending, name, n1, m1);
            },
            _ => {},
        }
    }

    /// Any number of steps that is enough gives what the search leads to.
    pub proof fn lemma_entry_slots(self, disk: Disk, dir: ClusterId, name: Seq<u8>, n: nat)
        requires
            self.dir_in_reach(dir),
            self.entry_slots_within(disk, self.dir_start(dir), no_pending(), name, n) is Some,
        ensures
            self.entry_slots(disk, dir, name) == self.entry_slots_within(
                disk,
                self.dir_start(dir),
                no_pending(),
                name,
                n,
            ),
    {
        let start = self.dir_start(dir);
        let m = choose|m: nat|
            self.entry_slots_within(disk, start, no_pending(), name, m) is Some;
        if n <= m {
            self.lemma_entry_slots_within(disk, start, no_pending(), name, n, m);
        } else {
            self.lemma_entry_slots_within(disk, start, no_pending(), name, m, n);
        }
    }

    /// Looking for the slots of an entry goes on behind the slots that a walk has
    /// come by.
    pub proof fn lemma_search_goes_on(
        self,
        disk: Disk,
        start: Cursor,
        pending: Pending,
        name: Seq<u8>,
        k: nat,
        n: nat,
    )
        requires
            self.walked(disk, start, k) matches Some(w) && !self.met(
                disk,
                w.slots,
                pending,
                name,
            ).over,
        ensures
            ({
                let w = self.walked(disk, start, k)->0;
                self.entry_slots_within(disk, start, pending, name, k + n)
                    == self.entry_slots_within(
                    disk,
                    w.at,
                    self.met(disk, w.slots, pending, name).pending,
                    name,
                    n,
                )
            }),
        decreases k,
    {
        if k > 0 {
            let before = self.walked(disk, start, (k - 1) as nat)->0;
            if let Step::Slot(slot, _, _) = self.step(disk, before.at) {
                assert(before.slots.push(slot).drop_last() =~= before.slots);
            }
            self.lemma_search_goes_on(disk, start, pending, name, (k - 1) as nat, n + 1);
        }
    }

    /// Where one of the slots that a walk has come by is the last one to look at,
    /// looking for the slots of an entry ends there.
    pub proof fn lemma_search_is_over(
        self,
        disk: Disk,
        dir: ClusterId,
        name: Seq<u8>,
        k: nat,
    )
        requires
            self.dir_in_reach(dir),
            self.walked(disk, self.dir_start(dir), k) matches Some(w) && self.met(
                disk,
                w.slots,
                no_pending(),
                name,
            ).over,
        ensures
            ({
                let w = self.walked(disk, self.dir_start(dir), k)->0;
                self.entry_slots(disk, dir, name) == Some(
                    SlotSearch {
                        found: self.met(disk, w.slots, no_pending(), name).found,
                        end: Link::End,
                    },
                )
            }),
        decreases k,
    {
        let start = self.dir_start(dir);
        let before = self.walked(disk, start, (k - 1) as nat)->0;
        if let Step::Slot(slot, _, _) = self.step(disk, before.at) {
            assert(before.slots.push(slot).drop_last() =~= before.slots);
        }
        if self.met(disk, before.slots, no_pending(), name).over {
            self.lemma_search_is_over(disk, dir, name, (k - 1) as nat);
        } else {
            self.lemma_search_goes_on(disk, start, no_pending(), name, (k - 1) as nat, 1);
            self.lemma_entry_slots(disk, dir, name, k);
        }
    }

    /// Someone who looks for the slots of an entry takes note of the slots of a
    /// long name.
    proof fn lemma_met_pieces(
        self,
        disk: Disk,
        slots: Seq<DirectorySlot>,
        raws: Seq<Seq<u8>>,
        pending: Pending,
        name: Seq<u8>,
        n: nat,
    )
        requires
            n <= slots.len(),
            n <= raws.len(),
            forall|i: int|
                0 <= i < n ==> slot_bytes(disk, #[trigger] slots[i]) == raws[i] && slot_is_valid(
                    raws[i],
                ) && slot_is_lfn(raws[i]),
        ensures
            self.met(disk, slots.take(n as int), pending, name) == (SlotsMet {
                pending: observed_pieces(pending, raws, slots, n),
                found: None,
                over: false,
            }),
        decreases n,
    {
        if n > 0 {
            self.lemma_met_pieces(disk, slots, raws, pending, name, (n - 1) as nat);
            assert(slots.take(n as int).drop_last() =~= slots.take(n - 1));
            assert(slots.take(n as int).last() == slots[n - 1]);
            assert(slot_bytes(disk, slots[n - 1]) == raws[n - 1]);
        } else {
            assert(slots.take(0) =~= Seq::empty());
        }
    }
}

/// No slots of a long name have been met yet.
pub open spec fn no_pending() -> Pending {
    Pending { slots: Seq::empty(), checksum: 0, next: 0, active: false }
}

/// Deleting an entry that was written under a long name deletes the slots that
/// it was written into, all of them and no others. This is so unless the search
/// for it ends in front of its slots, at an entry of the same name or at a slot
/// that was never used.
pub proof fn law_created_entry_is_deleted_whole(
    volume: FatVolume,
    disk: Disk,
    dir: ClusterId,
    front: Seq<DirectorySlot>,
    slots: Seq<DirectorySlot>,
    name: Seq<char>,
    entry: EntryView,
)
    requires
        volume.is_sound(disk, dir),
        volume.slots_fit(disk, slots, name),
        volume.follows(disk, dir, front, slots),
        long_name_length(name) is Ok,
        entry.name.len() == 11,
        entry.name[0] != 0 && entry.name[0] != 0xE5,
        entry.attributes.0 % 16 != 15,
        !volume.met(
            volume.with_named_entry(disk, slots, name, entry),
            front,
            no_pending(),
            entry.name,
        ).over,
    ensures
        volume.entry_slots(
            volume.with_named_entry(disk, slots, name, entry),
            dir,
            entry.name,
        ) == Some(SlotSearch { found: Some(slots), end: Link::End }),
{
    let after = volume.with_named_entry(disk, slots, name, entry);
    let start = volume.dir_start(dir);
    let ft = volume.fat_type();
    let k = choose|k: nat|
        (#[trigger] volume.walked(disk, start, k)) matches Some(w) && w.slots == front + slots;
    let all = entry_chain(name, entry, ft);
    let raws = chain_bytes(name, csum_of(entry.name));
    let count = raws.len();
    volume.lemma_walk_stays(disk, dir, slots, all, slots.len(), k);
    volume.lemma_named_entry(disk, slots, name, entry);
    lemma_entry_layout(entry, ft);
    let pending = volume.met(after, front, no_pending(), entry.name).pending;
    volume.lemma_met_concat(after, front, slots, no_pending(), entry.name);
    assert forall|i: int| 0 <= i < count implies slot_bytes(after, #[trigger] slots[i]) == raws[i]
        && slot_is_valid(raws[i]) && slot_is_lfn(raws[i]) by {
        lemma_chain_slot(name, csum_of(entry.name), i);
        assert(raws[i] == all.drop_last()[i]);
    }
    volume.lemma_met_pieces(after, slots, raws, pending, entry.name, count);
    law_written_slots_are_found(pending, name, entry.name, slots);
    assert(slots.take(count as int) =~= slots.drop_last());
    assert(slot_bytes(after, slots[count as int]) == all.last());
    volume.lemma_search_is_over(after, dir, entry.name, k);
}

/// A new directory holds itself and its parent, and nothing else: every slot
/// behind these two was never used.
pub proof fn law_new_dir_is_empty(
    volume: FatVolume,
    disk: Disk,
    c: ClusterId,
    parent: ClusterId,
    attributes: Attributes,
    now: Timestamp,
    i: u32,
)
    requires
        volume.run_in_reach(c),
        i < volume.blocks_per_cluster * 16,
    ensures
        ({
            let after = volume.with_dir(
                disk,
                c,
                parent,
                attributes,
                now,
                volume.further_blocks(),
            );
            let raw = slot_bytes(after, slot_place(BlockIdx(volume.block_of(c) as u32), i));
            let ft = volume.fat_type();
            if i == 0 {
                raw == entry_bytes(dir_entry(this_dir_name(), attributes, c, now), ft)
            } else if i == 1 {
                raw == entry_bytes(
                    dir_entry(parent_dir_name(), attributes, parent_reference(parent), now),
                    ft,
                )
            } else {
                slot_is_end(raw)
            }
        }),
{
    let start = volume.block_of(c);
    let ft = volume.fat_type();
    let block = first_dir_block(c, parent, attributes, now, ft);
    let first = disk.insert(start as u32, block);
    let this = entry_bytes(dir_entry(this_dir_name(), attributes, c, now), ft);
    let above = entry_bytes(
        dir_entry(parent_dir_name(), attributes, parent_reference(parent), now),
        ft,
    );
    let slot = slot_place(BlockIdx(start as u32), i);
    lemma_entry_layout(dir_entry(this_dir_name(), attributes, c, now), ft);
    lemma_entry_layout(
        dir_entry(parent_dir_name(), attributes, parent_reference(parent), now),
        ft,
    );
    law_zeroed(first, start + 1, volume.further_blocks(), slot.block.0);
    if i == 0 {
        assert(block.subrange(0, 32) =~= this);
    } else if i == 1 {
        assert(block.subrange(32, 64) =~= above);
    } else if i < 16 {
        assert(block[slot.offset as int] == 0);
    }
}

/// A directory that can be walked through to its end can be searched for any
/// name, long or short, for the slots of any entry, and for an alias.
pub proof fn law_names_in_reach(
    volume: FatVolume,
    disk: Disk,
    dir: ClusterId,
    name: Seq<char>,
    short_name: Seq<u8>,
    fold_case: bool,
)
    requires
        volume.walk_in_reach(disk, dir),
    ensures
        volume.short_name_lookup(disk, dir, short_name) is Some,
        volume.long_name_lookup(disk, dir, name, fold_case) is Some,
        volume.name_taken(disk, dir, name) is Some,
        volume.entry_slots(disk, dir, short_name) is Some,
        volume.alias_search(disk, dir, name, 0) is Some,
{
    law_walk_serves_all::<ShortNameFinder>(
        volume,
        disk,
        dir,
        Sought { name: short_name, found: None },
    );
    law_walk_serves_all::<LongNameFinder>(volume, disk, dir, LongSought::start(name, fold_case));
    lemma_taken_in_reach(volume, disk, dir, name);
    lemma_alias_in_reach(volume, disk, dir, name, 0);
    let k = choose|k: nat| volume.walk_ends(disk, dir, k);
    let start = volume.dir_start(dir);
    let w = volume.walked(disk, start, k)->0;
    if volume.met(disk, w.slots, no_pending(), short_name).over {
        volume.lemma_search_is_over(disk, dir, short_name, k);
    } else {
        volume.lemma_search_goes_on(disk, start, no_pending(), short_name, k, 1);
        volume.lemma_entry_slots(disk, dir, short_name, k + 1);
    }
}

/// Whether a name is taken can be found out.
proof fn lemma_taken_in_reach(volume: FatVolume, disk: Disk, dir: ClusterId, name: Seq<char>)
    requires
        volume.walk_in_reach(disk, dir),
    ensures
        volume.name_taken(disk, dir, name) is Some,
{
    law_walk_serves_all::<LongNameFinder>(volume, disk, dir, LongSought::start(name, true));
    if let Ok(bytes) = short_name_of(name) {
        law_walk_serves_all::<ShortNameFinder>(
            volume,
            disk,
            dir,
            Sought { name: bytes, found: None },
        );
    }
}

/// An alias can be looked for.
proof fn lemma_alias_in_reach(
    volume: FatVolume,
    disk: Disk,
    dir: ClusterId,
    name: Seq<char>,
    i: nat,
)
    requires
        volume.walk_in_reach(disk, dir),
    ensures
        volume.alias_search(disk, dir, name, i) is Some,
    decreases alias_count() - i,
{
    if i < alias_count() {
        lemma_taken_in_reach(volume, disk, dir, candidate(name, i));
        lemma_alias_in_reach(volume, disk, dir, name, i + 1);
    }
}

} // verus!
