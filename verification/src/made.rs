//! What the operations that make entries and directories write.

use crate::allocation::{Allocation, HintSearch};
use crate::block::{BlockCache, BlockDevice, BlockIdx, Disk};
use crate::creation::{chain_bytes, entry_chain, placed, with_slots};
use crate::deletion::with_slot;
use crate::directory::{slot_bytes, slot_place, DirectorySlot};
use crate::directory_laws::law_new_dir_is_empty;
use crate::entry::{
    entry_bytes, new_entry, slot_is_valid, Attributes, ClusterId, DirEntry, EntryView, FatType,
};
use crate::error::Error;
use crate::free_slots::FreeOutcome;
use crate::laws::{
    distinct_slots, law_allocated_was_free, law_end_reads_back, law_slot_reads_back,
    law_slots_leave_others, law_slots_read_back, law_zeroed, slot_aligned, whole_blocks,
};
use crate::long_name::long_name_length;
use crate::make_dir::{dir_entry, first_dir_block, new_dir, parent_reference, NewDir};
use crate::name::{csum_of, parent_dir_name, this_dir_name, ShortFileName};
use crate::placing::law_found_slots;
use crate::reach::law_make_dir_in_reach;
use crate::room::law_no_room_means_no_space;
use crate::round_trip::lemma_chain_slot;
use crate::rows::is_live;
use crate::stored::law_entry_is_stored_so;
use crate::table_laws::{
    law_allocation_goes_by_the_hint, law_entry_is_its_word, law_freed_word_is_zero, word_of,
};
use crate::time::{tells, TimeSource, Timestamp};
use crate::volume::FatVolume;
use vstd::prelude::*;

verus! {

/// A new entry is one of a file of no size, which was changed when it was made.
pub proof fn law_new_entry_has_no_size(
    name: Seq<u8>,
    attributes: Attributes,
    cluster: ClusterId,
    now: Timestamp,
)
    ensures
        new_entry(name, attributes, cluster, now, 0, 0) == (EntryView {
            name,
            mtime: now,
            ctime: now,
            attributes,
            cluster,
            size: 0,
            block: 0,
            offset: 0,
        }),
{
}

/// Does this describe an entry as it was asked for, in the slot that it tells?
pub open spec fn describes_entry(written: DirEntry, entry: EntryView) -> bool {
    &&& written.name.contents@ == entry.name
    &&& written.attributes == entry.attributes
    &&& written.cluster == entry.cluster
    &&& written.size == entry.size
    &&& written.ctime == entry.ctime
    &&& written.mtime == entry.mtime
}

/// Where an entry was written under a long name, it stands in the slot that the
/// operation told, byte by byte as it was asked for, and the pieces of its name stand
/// in the slots in front of that.
pub proof fn law_named_entry_is_written<D: BlockDevice>(
    volume: FatVolume,
    before: BlockCache<D>,
    dir: ClusterId,
    name: Seq<char>,
    entry: EntryView,
    after: BlockCache<D>,
    left: FatVolume,
    written: DirEntry,
)
    requires
        volume.is_sound(before.disk(), dir),
        volume.walk_in_reach(before.disk(), dir),
        volume.creation_in_reach(before.disk(), dir, name),
        volume.writes_entry(before, dir, name, entry, after, left, Ok(written)),
        entry.name.len() == 11,
    ensures
        describes_entry(written, entry),
        exists|slots: Seq<DirectorySlot>|
            {
                let pieces = chain_bytes(name, csum_of(entry.name));
                &&& #[trigger] distinct_slots(slots)
                &&& slots.len() == pieces.len() + 1
                &&& slots.last() == (DirectorySlot {
                    block: written.entry_block,
                    offset: written.entry_offset,
                })
                &&& slot_bytes(after.disk(), slots.last()) == entry_bytes(entry, volume.fat_type())
                &&& forall|i: int|
                    0 <= i < pieces.len() ==> slot_bytes(after.disk(), #[trigger] slots[i])
                        == pieces[i]
            },
{
    let disk = before.disk();
    let needed = FatVolume::slots_for(name);
    let searches = choose|searches: Seq<HintSearch>|
        {
            let search = #[trigger] volume.free_slots(disk, dir, needed, searches);
            &&& left == search.volume
            &&& search.outcome matches FreeOutcome::Found(slots) && {
                &&& written@ == placed(entry, slots.last())
                &&& after.disk() == with_slots(
                    search.disk,
                    slots,
                    entry_chain(name, entry, volume.fat_type()),
                    needed,
                )
            }
        };
    let search = volume.free_slots(disk, dir, needed, searches);
    let slots = search.outcome->Found_0;
    let raws = entry_chain(name, entry, volume.fat_type());
    let pieces = chain_bytes(name, csum_of(entry.name));
    law_found_slots(volume, disk, dir, needed, searches);
    law_entry_is_stored_so(entry, volume.fat_type());
    assert forall|i: int| 0 <= i < raws.len() implies (#[trigger] raws[i]).len() == 32 by {
        if i < pieces.len() {
            lemma_chain_slot(name, csum_of(entry.name), i);
            assert(raws[i] == pieces[i]);
        }
    }
    assert forall|i: int| 0 <= i < pieces.len() implies slot_bytes(
        after.disk(),
        #[trigger] slots[i],
    ) == pieces[i] by {
        law_slots_read_back(search.disk, slots, raws, needed, i);
        assert(raws[i] == pieces[i]);
    }
    law_slots_read_back(search.disk, slots, raws, needed, needed - 1);
}

/// Where an entry was written without a long name, it stands in the slot that the
/// operation told, byte by byte as it was asked for.
pub proof fn law_plain_entry_is_written<D: BlockDevice, T: TimeSource>(
    volume: FatVolume,
    before: BlockCache<D>,
    time_source: &T,
    dir: ClusterId,
    name: Seq<u8>,
    attributes: Attributes,
    cluster: ClusterId,
    after: BlockCache<D>,
    left: FatVolume,
    written: DirEntry,
)
    requires
        volume.is_sound(before.disk(), dir),
        volume.walk_in_reach(before.disk(), dir),
        volume.free_slots_in_reach(before.disk(), dir, 1),
        volume.adds_entry(
            before,
            time_source,
            dir,
            name,
            attributes,
            cluster,
            after,
            left,
            Ok(written),
        ),
        name.len() == 11,
    ensures
        ({
            let slot = DirectorySlot { block: written.entry_block, offset: written.entry_offset };
            let entry = EntryView {
                name,
                mtime: written.ctime,
                ctime: written.ctime,
                attributes,
                cluster,
                size: 0,
                block: 0,
                offset: 0,
            };
            &&& slot_aligned(slot)
            &&& describes_entry(written, entry)
            &&& slot_bytes(after.disk(), slot) == entry_bytes(entry, volume.fat_type())
        }),
{
    let disk = before.disk();
    let searches = choose|searches: Seq<HintSearch>|
        {
            let search = #[trigger] volume.free_slots(disk, dir, 1, searches);
            &&& left == search.volume
            &&& search.outcome matches FreeOutcome::Found(slots) && {
                let entry = new_entry(name, attributes, cluster, written.ctime, 0, 0);
                &&& written@ == placed(entry, slots[0])
                &&& after.disk() == with_slot(
                    search.disk,
                    slots[0],
                    entry_bytes(entry, volume.fat_type()),
                )
            }
        };
    let search = volume.free_slots(disk, dir, 1, searches);
    let slots = search.outcome->Found_0;
    let entry = new_entry(name, attributes, cluster, written.ctime, 0, 0);
    law_found_slots(volume, disk, dir, 1, searches);
    law_entry_is_stored_so(entry, volume.fat_type());
    assert(slot_aligned(slots[0]));
    law_slot_reads_back(
        search.disk,
        slots[0],
        entry_bytes(entry, volume.fat_type()),
        slots[0],
    );
}

/// Writing an entry with its long name leaves alone what stands in every other slot: no
/// slot of a directory that was in use is written.
pub proof fn law_named_entry_disturbs_none<D: BlockDevice>(
    volume: FatVolume,
    before: BlockCache<D>,
    dir: ClusterId,
    name: Seq<char>,
    entry: EntryView,
    after: BlockCache<D>,
    left: FatVolume,
    written: DirEntry,
    other: DirectorySlot,
)
    requires
        volume.is_sound(before.disk(), dir),
        volume.walk_in_reach(before.disk(), dir),
        volume.creation_in_reach(before.disk(), dir, name),
        volume.writes_entry(before, dir, name, entry, after, left, Ok(written)),
        entry.name.len() == 11,
        slot_aligned(other),
        volume.holds_data(before.disk(), other.block.0 as int),
        is_live(before.disk(), other),
    ensures
        slot_bytes(after.disk(), other) == slot_bytes(before.disk(), other),
{
    let disk = before.disk();
    let needed = FatVolume::slots_for(name);
    let searches = choose|searches: Seq<HintSearch>|
        {
            let search = #[trigger] volume.free_slots(disk, dir, needed, searches);
            search.outcome matches FreeOutcome::Found(slots) && after.disk() == with_slots(
                search.disk,
                slots,
                entry_chain(name, entry, volume.fat_type()),
                needed,
            )
        };
    let search = volume.free_slots(disk, dir, needed, searches);
    let slots = search.outcome->Found_0;
    let raws = entry_chain(name, entry, volume.fat_type());
    let pieces = chain_bytes(name, csum_of(entry.name));
    law_found_slots(volume, disk, dir, needed, searches);
    law_entry_is_stored_so(entry, volume.fat_type());
    assert forall|i: int| 0 <= i < needed implies (#[trigger] raws[i]).len() == 32 by {
        if i < pieces.len() {
            lemma_chain_slot(name, csum_of(entry.name), i);
            assert(raws[i] == pieces[i]);
        }
    }
    assert(search.disk[other.block.0] == disk[other.block.0]);
    lemma_live_is_valid(disk, other);
    assert forall|i: int| 0 <= i < needed implies slot_aligned(#[trigger] slots[i]) && slots[i]
        != other by {
        assert(!slot_is_valid(slot_bytes(search.disk, slots[i])));
    }
    law_slots_leave_others(search.disk, slots, raws, needed, other);
}

/// So does writing one without a long name.
pub proof fn law_plain_entry_disturbs_none<D: BlockDevice, T: TimeSource>(
    volume: FatVolume,
    before: BlockCache<D>,
    time_source: &T,
    dir: ClusterId,
    name: Seq<u8>,
    attributes: Attributes,
    cluster: ClusterId,
    after: BlockCache<D>,
    left: FatVolume,
    written: DirEntry,
    other: DirectorySlot,
)
    requires
        volume.is_sound(before.disk(), dir),
        volume.walk_in_reach(before.disk(), dir),
        volume.free_slots_in_reach(before.disk(), dir, 1),
        volume.adds_entry(
            before,
            time_source,
            dir,
            name,
            attributes,
            cluster,
            after,
            left,
            Ok(written),
        ),
        name.len() == 11,
        slot_aligned(other),
        volume.holds_data(before.disk(), other.block.0 as int),
        is_live(before.disk(), other),
    ensures
        slot_bytes(after.disk(), other) == slot_bytes(before.disk(), other),
{
    let disk = before.disk();
    let entry = new_entry(name, attributes, cluster, written.ctime, 0, 0);
    let raw = entry_bytes(entry, volume.fat_type());
    let searches = choose|searches: Seq<HintSearch>|
        {
            let search = #[trigger] volume.free_slots(disk, dir, 1, searches);
            search.outcome matches FreeOutcome::Found(slots) && after.disk() == with_slot(
                search.disk,
                slots[0],
                raw,
            )
        };
    let search = volume.free_slots(disk, dir, 1, searches);
    let slots = search.outcome->Found_0;
    law_found_slots(volume, disk, dir, 1, searches);
    law_entry_is_stored_so(entry, volume.fat_type());
    assert(search.disk[other.block.0] == disk[other.block.0]);
    lemma_live_is_valid(disk, other);
    assert(slot_aligned(slots[0]) && !slot_is_valid(slot_bytes(search.disk, slots[0])));
    law_slot_reads_back(search.disk, slots[0], raw, other);
}

/// A slot that is in use is a valid one.
proof fn lemma_live_is_valid(disk: Disk, slot: DirectorySlot)
    requires
        whole_blocks(disk),
        slot_aligned(slot),
    ensures
        is_live(disk, slot) <==> slot_is_valid(slot_bytes(disk, slot)),
{
    assert(slot_bytes(disk, slot)[0] == disk[slot.block.0][slot.offset as int]);
}

/// A long name that is no good is refused for what is wrong with it, and nothing
/// changes.
pub proof fn law_bad_names_are_refused<D: BlockDevice>(
    volume: FatVolume,
    before: BlockCache<D>,
    dir: ClusterId,
    name: Seq<char>,
    entry: EntryView,
    after: BlockCache<D>,
    left: FatVolume,
    result: Result<DirEntry, Error<D::Error>>,
)
    requires
        volume.writes_entry(before, dir, name, entry, after, left, result),
    ensures
        long_name_length(name) matches Err(error) ==> {
            &&& result == Err::<DirEntry, Error<D::Error>>(Error::FilenameError(error))
            &&& after.disk() == before.disk()
            &&& left == volume
        },
        long_name_length(name) is Ok ==> !(result matches Err(Error::FilenameError(_))),
{
}

/// An entry with a long name is refused for want of room only where the root directory
/// is full, which has a region of its own, or where every cluster of the volume is in
/// use by then.
pub proof fn law_refused_for_want_of_room<D: BlockDevice>(
    volume: FatVolume,
    before: BlockCache<D>,
    dir: ClusterId,
    name: Seq<char>,
    entry: EntryView,
    after: BlockCache<D>,
    left: FatVolume,
    c: ClusterId,
)
    requires
        volume.creation_in_reach(before.disk(), dir, name),
        volume.writes_entry(before, dir, name, entry, after, left, Err(Error::NotEnoughSpace)),
        volume.cluster_count + 2 <= u32::MAX,
        2 <= c.0 <= volume.cluster_count + 1,
    ensures
        volume.fat_specific_info is Fat16 && dir.0 == 0xFFFF_FFFC || word_of(
            volume,
            after.disk(),
            c,
        ) != 0,
{
    let needed = FatVolume::slots_for(name);
    let searches = choose|searches: Seq<HintSearch>|
        {
            let search = #[trigger] volume.free_slots(before.disk(), dir, needed, searches);
            search.outcome is Full && search.disk == after.disk()
        };
    law_no_room_means_no_space(volume, before.disk(), dir, needed, searches, c);
}

/// A new directory names itself and its parent, in two entries of their own, and holds
/// nothing else. A parent that is the root directory is named by a zero.
pub proof fn law_new_directory_names_itself_and_its_parent(
    volume: FatVolume,
    disk: Disk,
    c: ClusterId,
    parent: ClusterId,
    attributes: Attributes,
    now: Timestamp,
    i: u32,
    k: int,
)
    requires
        volume.run_in_reach(c),
        i < volume.blocks_per_cluster * 16,
        0 <= k < 11,
    ensures
        ({
            let after = volume.with_dir(
                disk,
                c,
                parent,
                attributes,
                now,
                volume.further_blocks(),
            );
            let raw = slot_bytes(after, slot_place(BlockIdx(volume.block_of(c) as u32), i));
            let low = raw[26] + 0x100 * raw[27];
            let high = raw[20] + 0x100 * raw[21];
            let named = if parent.0 == 0xFFFF_FFFC {
                0
            } else {
                parent.0 as int
            };
            &&& i < 2 ==> {
                &&& raw[k] == if k <= i {
                    0x2Eint
                } else {
                    0x20
                }
                &&& raw[11] == attributes.0
                &&& raw[28] == 0 && raw[29] == 0 && raw[30] == 0 && raw[31] == 0
            }
            &&& i == 0 ==> low == c.0 as int % 0x1_0000
            &&& i == 0 && volume.fat_specific_info is Fat32 ==> high == c.0 as int / 0x1_0000
            &&& i == 1 ==> low == named % 0x1_0000
            &&& i == 1 && volume.fat_specific_info is Fat32 ==> high == named / 0x1_0000
            &&& i >= 2 ==> raw[0] == 0
        }),
{
    let ft = volume.fat_type();
    let own = dir_entry(this_dir_name(), attributes, c, now);
    let up = dir_entry(parent_dir_name(), attributes, parent_reference(parent), now);
    law_new_dir_is_empty(volume, disk, c, parent, attributes, now, i);
    law_entry_is_stored_so(own, ft);
    law_entry_is_stored_so(up, ft);
    if i < 2 {
        assert(entry_bytes(own, ft)[k] == own.name[k]);
        assert(entry_bytes(up, ft)[k] == up.name[k]);
    }
}

/// Does an entry of this kind stand in the slot that `written` tells?
pub open spec fn stands_written(volume: FatVolume, disk: Disk, written: DirEntry) -> bool {
    let slot = DirectorySlot { block: written.entry_block, offset: written.entry_offset };
    slot_aligned(slot) && slot_bytes(disk, slot) == entry_bytes(written@, volume.fat_type())
}

/// The directory is named in its parent once it was laid out.
proof fn lemma_named_in_parent<D: BlockDevice, T: TimeSource>(
    volume: FatVolume,
    before: BlockCache<D>,
    time_source: &T,
    c: ClusterId,
    dir: NewDir,
    now: Timestamp,
    after: BlockCache<D>,
    left: FatVolume,
    written: DirEntry,
)
    requires
        volume.is_sound(before.disk(), dir.parent),
        volume.walk_in_reach(before.disk(), dir.parent),
        volume.naming_in_reach(before.disk(), dir),
        volume.names_dir(before, time_source, c, dir, now, after, left, Ok(written)),
        dir.short_name.len() == 11,
    ensures
        written.name.contents@ == dir.short_name,
        written.attributes == dir.attributes,
        written.cluster == c,
        written.size == 0,
        stands_written(volume, after.disk(), written),
{
    match dir.long_name {
        Some(long_name) => {
            let entry = dir_entry(dir.short_name, dir.attributes, c, now);
            lemma_stands_written(
                volume,
                before,
                dir.parent,
                long_name,
                entry,
                after,
                left,
                written,
            );
        },
        None => {
            law_plain_entry_is_written(
                volume,
                before,
                time_source,
                dir.parent,
                dir.short_name,
                dir.attributes,
                c,
                after,
                left,
                written,
            );
        },
    }
}

/// Is this an entry that is named by so many dots and refers to this cluster?
pub open spec fn is_dots(
    raw: Seq<u8>,
    dots: int,
    attributes: Attributes,
    cluster: int,
    fat_type: FatType,
) -> bool {
    &&& forall|k: int|
        0 <= k < 11 ==> #[trigger] raw[k] == if k < dots {
            0x2Eint
        } else {
            0x20
        }
    &&& raw[11] == attributes.0
    &&& raw[26] + 0x100 * raw[27] == cluster % 0x1_0000
    &&& fat_type is Fat32 ==> raw[20] + 0x100 * raw[21] == cluster / 0x1_0000
}

/// Does a cluster begin with the entries by which a directory refers to itself and to
/// its parent?
pub open spec fn has_dots(
    volume: FatVolume,
    disk: Disk,
    c: ClusterId,
    parent: ClusterId,
    attributes: Attributes,
) -> bool {
    let first = BlockIdx(volume.block_of(c) as u32);
    let named: int = if parent.0 == 0xFFFF_FFFC {
        0
    } else {
        parent.0 as int
    };
    &&& is_dots(
        slot_bytes(disk, DirectorySlot { block: first, offset: 0 }),
        1,
        attributes,
        c.0 as int,
        volume.fat_type(),
    )
    &&& is_dots(
        slot_bytes(disk, DirectorySlot { block: first, offset: 32 }),
        2,
        attributes,
        named,
        volume.fat_type(),
    )
}

/// A directory that was laid out begins so.
proof fn lemma_dots_are_laid_out(
    volume: FatVolume,
    disk: Disk,
    c: ClusterId,
    parent: ClusterId,
    attributes: Attributes,
    now: Timestamp,
)
    requires
        volume.run_in_reach(c),
        volume.blocks_per_cluster >= 1,
    ensures
        has_dots(
            volume,
            volume.with_dir(disk, c, parent, attributes, now, volume.further_blocks()),
            c,
            parent,
            attributes,
        ),
{
    let after = volume.with_dir(disk, c, parent, attributes, now, volume.further_blocks());
    let first = BlockIdx(volume.block_of(c) as u32);
    assert(slot_place(first, 0) == (DirectorySlot { block: first, offset: 0 }));
    assert(slot_place(first, 1) == (DirectorySlot { block: first, offset: 32 }));
    assert forall|i: u32, k: int| i < 2 && 0 <= k < 11 implies #[trigger] slot_bytes(
        after,
        slot_place(first, i),
    )[k] == if k <= i {
        0x2Eint
    } else {
        0x20
    } by {
        law_new_directory_names_itself_and_its_parent(
            volume,
            disk,
            c,
            parent,
            attributes,
            now,
            i,
            k,
        );
    }
    law_new_directory_names_itself_and_its_parent(
        volume,
        disk,
        c,
        parent,
        attributes,
        now,
        0,
        0,
    );
    law_new_directory_names_itself_and_its_parent(
        volume,
        disk,
        c,
        parent,
        attributes,
        now,
        1,
        0,
    );
}

/// The cluster of a new directory is in use.
proof fn lemma_new_cluster_is_in_use(
    volume: FatVolume,
    disk: Disk,
    new: ClusterId,
    dir: NewDir,
    now: Timestamp,
)
    requires
        volume.laid_out(),
        whole_blocks(disk),
        volume.in_volume(new),
    ensures
        volume.in_use(
            volume.with_dir(
                volume.with_claim(disk, None, new),
                new,
                dir.parent,
                dir.attributes,
                now,
                volume.further_blocks(),
            ),
            new,
        ),
{
    let claimed = volume.with_claim(disk, None, new);
    let block = first_dir_block(new, dir.parent, dir.attributes, now, volume.fat_type());
    let first = claimed.insert(volume.block_of(new) as u32, block);
    volume.lemma_entry_place(new);
    volume.lemma_cluster_place(new);
    law_end_reads_back(volume, disk, new);
    law_zeroed(
        first,
        volume.block_of(new) + 1,
        volume.further_blocks(),
        volume.entry_block(new) as u32,
    );
}

/// What is known of the free clusters does not matter to that.
proof fn lemma_new_dir_holds_data(
    volume: FatVolume,
    other: FatVolume,
    disk: Disk,
    new: ClusterId,
    dir: NewDir,
    now: Timestamp,
)
    requires
        volume.laid_out(),
        whole_blocks(disk),
        volume.in_volume(new),
        other.same_layout(volume),
    ensures
        other.laid_out(),
        other.in_volume(new),
        other.holds_data(
            other.with_dir(
                volume.with_claim(disk, None, new),
                new,
                dir.parent,
                dir.attributes,
                now,
                other.further_blocks(),
            ),
            other.block_of(new),
        ),
        0 <= other.block_of(new) <= u32::MAX,
{
    let claimed = volume.with_claim(disk, None, new);
    let made = other.with_dir(
        claimed,
        new,
        dir.parent,
        dir.attributes,
        now,
        other.further_blocks(),
    );
    volume.lemma_cluster_place(new);
    lemma_new_cluster_is_in_use(volume, disk, new, dir, now);
    assert(other.block_of(new) == volume.block_of(new));
    assert(made == volume.with_dir(
        claimed,
        new,
        dir.parent,
        dir.attributes,
        now,
        volume.further_blocks(),
    ));
    assert(other.entry(made, new) == volume.entry(made, new));
    assert(other.in_use(made, new));
}

/// The two entries stay while their slots are left alone.
proof fn lemma_dots_stay(
    volume: FatVolume,
    other: FatVolume,
    disk: Disk,
    after: Disk,
    c: ClusterId,
    parent: ClusterId,
    attributes: Attributes,
)
    requires
        other.same_layout(volume),
        has_dots(other, disk, c, parent, attributes),
        ({
            let first = BlockIdx(other.block_of(c) as u32);
            let this = DirectorySlot { block: first, offset: 0 };
            let up = DirectorySlot { block: first, offset: 32 };
            &&& slot_bytes(after, this) == slot_bytes(disk, this)
            &&& slot_bytes(after, up) == slot_bytes(disk, up)
        }),
    ensures
        has_dots(volume, after, c, parent, attributes),
{
    assert(other.block_of(c) == volume.block_of(c));
    assert(other.fat_type() == volume.fat_type());
}

/// Naming a directory in its parent leaves what stands in a slot that is in use.
proof fn lemma_naming_disturbs_none<D: BlockDevice, T: TimeSource>(
    volume: FatVolume,
    before: BlockCache<D>,
    time_source: &T,
    c: ClusterId,
    dir: NewDir,
    now: Timestamp,
    after: BlockCache<D>,
    left: FatVolume,
    written: DirEntry,
    other: DirectorySlot,
)
    requires
        volume.is_sound(before.disk(), dir.parent),
        volume.walk_in_reach(before.disk(), dir.parent),
        volume.naming_in_reach(before.disk(), dir),
        volume.names_dir(before, time_source, c, dir, now, after, left, Ok(written)),
        dir.short_name.len() == 11,
        slot_aligned(other),
        volume.holds_data(before.disk(), other.block.0 as int),
        slot_bytes(before.disk(), other)[0] == 0x2E,
    ensures
        slot_bytes(after.disk(), other) == slot_bytes(before.disk(), other),
{
    assert(whole_blocks(before.disk()));
    assert(slot_bytes(before.disk(), other)[0]
        == before.disk()[other.block.0][other.offset as int]);
    match dir.long_name {
        Some(long_name) => law_named_entry_disturbs_none(
            volume,
            before,
            dir.parent,
            long_name,
            dir_entry(dir.short_name, dir.attributes, c, now),
            after,
            left,
            written,
            other,
        ),
        None => law_plain_entry_disturbs_none(
            volume,
            before,
            time_source,
            dir.parent,
            dir.short_name,
            dir.attributes,
            c,
            after,
            left,
            written,
            other,
        ),
    }
}

/// How a directory that was made was named in its parent: from the disk on which it was
/// laid out, in a cluster that was free.
proof fn lemma_made_and_named<D: BlockDevice, T: TimeSource>(
    volume: FatVolume,
    before: BlockCache<D>,
    time_source: &T,
    dir: NewDir,
    after: BlockCache<D>,
    left: FatVolume,
) -> (how: (HintSearch, Timestamp, BlockCache<D>, DirEntry))
    requires
        volume.is_sound(before.disk(), dir.parent),
        volume.walk_in_reach(before.disk(), dir.parent),
        volume.can_claim(23),
        volume.makes_dir(before, time_source, dir, after, left, Ok(())),
    ensures
        ({
            let (search, now, laid_out, written) = how;
            &&& volume.allocation(before.disk(), None, false, search) matches Some(a)
            &&& a.volume.same_layout(volume)
            &&& volume.in_volume(a.cluster)
            &&& word_of(volume, before.disk(), a.cluster) == 0
            &&& a.disk == volume.with_claim(before.disk(), None, a.cluster)
            &&& laid_out.disk() == a.volume.with_dir(
                a.disk,
                a.cluster,
                dir.parent,
                dir.attributes,
                now,
                a.volume.further_blocks(),
            )
            &&& a.volume.is_sound(laid_out.disk(), dir.parent)
            &&& a.volume.walk_in_reach(laid_out.disk(), dir.parent)
            &&& a.volume.naming_in_reach(laid_out.disk(), dir)
            &&& a.volume.names_dir(
                laid_out,
                time_source,
                a.cluster,
                dir,
                now,
                after,
                left,
                Ok(written),
            )
        }),
{
    law_make_dir_in_reach(volume, before.disk(), dir);
    let (search, claimed) = choose|search: HintSearch, claimed: BlockCache<D>|
        #[trigger] volume.claims_and_fills(
            before,
            time_source,
            search,
            claimed,
            dir,
            after,
            left,
            Ok(()),
        );
    let a = volume.allocation(before.disk(), None, false, search)->0;
    let written = choose|written: DirEntry|
        #[trigger] a.volume.publishes_dir(
            claimed,
            time_source,
            a.cluster,
            dir,
            after,
            left,
            Ok(written),
        );
    let now = choose|now: Timestamp|
        tells(time_source, now) && #[trigger] a.volume.publishes_dir_at(
            claimed,
            time_source,
            a.cluster,
            dir,
            now,
            after,
            left,
            Ok(written),
        );
    let made = a.volume.with_dir(
        a.disk,
        a.cluster,
        dir.parent,
        dir.attributes,
        now,
        a.volume.further_blocks(),
    );
    let laid_out = choose|laid_out: BlockCache<D>|
        {
            &&& laid_out.disk() == made
            &&& #[trigger] a.volume.names_dir(
                laid_out,
                time_source,
                a.cluster,
                dir,
                now,
                after,
                left,
                Ok(written),
            )
        };
    law_allocated_was_free(volume, before.disk(), None, false, search);
    law_entry_is_its_word(volume, before.disk(), a.cluster);
    volume.lemma_first_free(before.disk(), volume.search_start(), volume.end_cluster());
    volume.lemma_first_free(before.disk(), 2, volume.end_cluster());
    volume.lemma_new_dir_is_sound(before.disk(), a.cluster, dir, now);
    volume.lemma_same_walks(a.volume, made, dir.parent);
    assert(a.volume.publishing_in_reach(a.disk, a.cluster, dir));
    assert(a.volume.naming_in_reach(made, dir));
    (search, now, laid_out, written)
}

/// What then stands on the disk.
proof fn lemma_made_dir_stands<D: BlockDevice, T: TimeSource>(
    volume: FatVolume,
    disk: Disk,
    time_source: &T,
    dir: NewDir,
    after: BlockCache<D>,
    left: FatVolume,
    a: Allocation,
    now: Timestamp,
    laid_out: BlockCache<D>,
    written: DirEntry,
)
    requires
        volume.laid_out(),
        whole_blocks(disk),
        dir.short_name.len() == 11,
        a.volume.same_layout(volume),
        volume.in_volume(a.cluster),
        a.disk == volume.with_claim(disk, None, a.cluster),
        laid_out.disk() == a.volume.with_dir(
            a.disk,
            a.cluster,
            dir.parent,
            dir.attributes,
            now,
            a.volume.further_blocks(),
        ),
        a.volume.is_sound(laid_out.disk(), dir.parent),
        a.volume.walk_in_reach(laid_out.disk(), dir.parent),
        a.volume.naming_in_reach(laid_out.disk(), dir),
        a.volume.names_dir(
            laid_out,
            time_source,
            a.cluster,
            dir,
            now,
            after,
            left,
            Ok(written),
        ),
    ensures
        stands_written(volume, after.disk(), written),
        written.name.contents@ == dir.short_name,
        written.attributes == dir.attributes,
        written.size == 0,
        written.cluster == a.cluster,
        has_dots(volume, after.disk(), written.cluster, dir.parent, dir.attributes),
{
    let first = BlockIdx(a.volume.block_of(a.cluster) as u32);
    let this = DirectorySlot { block: first, offset: 0 };
    let parent = DirectorySlot { block: first, offset: 32 };
    let disk_then = laid_out.disk();
    lemma_named_in_parent(
        a.volume,
        laid_out,
        time_source,
        a.cluster,
        dir,
        now,
        after,
        left,
        written,
    );
    lemma_new_dir_holds_data(volume, a.volume, disk, a.cluster, dir, now);
    assert(has_dots(a.volume, disk_then, a.cluster, dir.parent, dir.attributes)) by {
        a.volume.lemma_cluster_place(a.cluster);
        lemma_dots_are_laid_out(a.volume, a.disk, a.cluster, dir.parent, dir.attributes, now);
    }
    assert(slot_bytes(disk_then, this)[0] == 0x2E && slot_bytes(disk_then, parent)[0] == 0x2E);
    lemma_naming_disturbs_none(
        a.volume,
        laid_out,
        time_source,
        a.cluster,
        dir,
        now,
        after,
        left,
        written,
        this,
    );
    lemma_naming_disturbs_none(
        a.volume,
        laid_out,
        time_source,
        a.cluster,
        dir,
        now,
        after,
        left,
        written,
        parent,
    );
    lemma_dots_stay(
        volume,
        a.volume,
        disk_then,
        after.disk(),
        a.cluster,
        dir.parent,
        dir.attributes,
    );
}

/// A directory that was made begins in a cluster of the volume that was free before,
/// and is named in its parent, with its short name, its attributes and that cluster,
/// by an entry of no size. It begins with an entry for itself and one for its parent.
pub proof fn law_made_directory_is_named<D: BlockDevice, T: TimeSource>(
    volume: FatVolume,
    before: BlockCache<D>,
    time_source: &T,
    dir: NewDir,
    after: BlockCache<D>,
    left: FatVolume,
)
    requires
        volume.is_sound(before.disk(), dir.parent),
        volume.walk_in_reach(before.disk(), dir.parent),
        volume.can_claim(23),
        volume.makes_dir(before, time_source, dir, after, left, Ok(())),
        dir.short_name.len() == 11,
    ensures
        exists|written: DirEntry|
            {
                &&& #[trigger] stands_written(volume, after.disk(), written)
                &&& written.name.contents@ == dir.short_name
                &&& written.attributes == dir.attributes
                &&& written.size == 0
                &&& 2 <= written.cluster.0 <= volume.cluster_count + 1
                &&& word_of(volume, before.disk(), written.cluster) == 0
                &&& has_dots(volume, after.disk(), written.cluster, dir.parent, dir.attributes)
            },
{
    let (search, now, laid_out, written) = lemma_made_and_named(
        volume,
        before,
        time_source,
        dir,
        after,
        left,
    );
    let a = volume.allocation(before.disk(), None, false, search)->0;
    lemma_made_dir_stands(
        volume,
        before.disk(),
        time_source,
        dir,
        after,
        left,
        a,
        now,
        laid_out,
        written,
    );
    assert(stands_written(volume, after.disk(), written));
}

/// A directory that is made with a long name bears it: the pieces of that name stand in
/// slots of their own, in front of the entry, and refer to it.
pub proof fn law_made_directory_bears_its_long_name<D: BlockDevice, T: TimeSource>(
    volume: FatVolume,
    before: BlockCache<D>,
    time_source: &T,
    parent: ClusterId,
    sfn: ShortFileName,
    long_name: Option<&str>,
    attributes: Attributes,
    after: BlockCache<D>,
    left: FatVolume,
)
    requires
        volume.is_sound(before.disk(), parent),
        volume.walk_in_reach(before.disk(), parent),
        volume.can_claim(23),
        volume.makes_dir(
            before,
            time_source,
            new_dir(parent, sfn, long_name, attributes),
            after,
            left,
            Ok(()),
        ),
        long_name is Some,
    ensures
        exists|written: DirEntry, slots: Seq<DirectorySlot>|
            {
                let pieces = chain_bytes(long_name->0@, csum_of(sfn.contents@));
                &&& #[trigger] stands_written(volume, after.disk(), written)
                &&& written.name.contents@ == sfn.contents@
                &&& written.attributes == attributes
                &&& has_dots(volume, after.disk(), written.cluster, parent, attributes)
                &&& #[trigger] distinct_slots(slots)
                &&& slots.len() == pieces.len() + 1
                &&& slots.last() == (DirectorySlot {
                    block: written.entry_block,
                    offset: written.entry_offset,
                })
                &&& forall|i: int|
                    0 <= i < pieces.len() ==> slot_bytes(after.disk(), #[trigger] slots[i])
                        == pieces[i]
            },
{
    let dir = new_dir(parent, sfn, long_name, attributes);
    let (search, now, laid_out, written) = lemma_made_and_named(
        volume,
        before,
        time_source,
        dir,
        after,
        left,
    );
    let a = volume.allocation(before.disk(), None, false, search)->0;
    lemma_made_dir_stands(
        volume,
        before.disk(),
        time_source,
        dir,
        after,
        left,
        a,
        now,
        laid_out,
        written,
    );
    law_named_entry_is_written(
        a.volume,
        laid_out,
        parent,
        long_name->0@,
        dir_entry(sfn.contents@, attributes, a.cluster, now),
        after,
        left,
        written,
    );
}

/// Where a directory could not be made, and the device reported no error, either
/// nothing changed, because no cluster was free; or the cluster that was claimed for it
/// is handed back: it was free, is free again, and the next search begins at it.
pub proof fn law_failed_directory_is_given_back<D: BlockDevice, T: TimeSource>(
    volume: FatVolume,
    before: BlockCache<D>,
    time_source: &T,
    dir: NewDir,
    after: BlockCache<D>,
    left: FatVolume,
    error: Error<D::Error>,
)
    requires
        volume.laid_out(),
        volume.next_free_cluster matches Some(hint) ==> hint.0 >= 2,
        volume.makes_dir(before, time_source, dir, after, left, Err(error)),
        left.same_layout(volume),
        after.fault_list() == before.fault_list(),
        whole_blocks(after.disk()),
    ensures
        ({
            ||| error is NotEnoughSpace && after.disk() == before.disk() && left == volume
            ||| {
                &&& left.next_free_cluster matches Some(c)
                &&& 2 <= c.0 <= volume.cluster_count + 1
                &&& word_of(volume, before.disk(), c) == 0
                &&& word_of(volume, after.disk(), c) == 0
            }
        }),
{
    if exists|search: HintSearch, claimed: BlockCache<D>|
        #[trigger] volume.claims_and_fills(
            before,
            time_source,
            search,
            claimed,
            dir,
            after,
            left,
            Err(error),
        ) {
        let (search, claimed) = choose|search: HintSearch, claimed: BlockCache<D>|
            #[trigger] volume.claims_and_fills(
                before,
                time_source,
                search,
                claimed,
                dir,
                after,
                left,
                Err(error),
            );
        let a = volume.allocation(before.disk(), None, false, search)->0;
        let (failed, kept) = choose|failed: BlockCache<D>, kept: FatVolume|
            {
                &&& #[trigger] a.volume.publishes_dir(
                    claimed,
                    time_source,
                    a.cluster,
                    dir,
                    failed,
                    kept,
                    Err(error),
                )
                &&& kept.releases(failed, a.cluster, after, left)
            };
        law_allocation_goes_by_the_hint(
            volume,
            before.disk(),
            None,
            false,
            search,
            a.cluster,
        );
        volume.lemma_entry_place(a.cluster);
        lemma_faults_grow(a.volume, claimed, time_source, a.cluster, dir, failed, kept, error);
        assert(after.untroubled(&failed));
        assert(kept.same_layout(volume));
        assert(kept.entry_block(a.cluster) == volume.entry_block(a.cluster));
        law_freed_word_is_zero(kept, failed.disk(), a.cluster);
        assert(word_of(kept, after.disk(), a.cluster) == word_of(
            volume,
            after.disk(),
            a.cluster,
        ));
    }
}

/// The errors of the device only become more.
proof fn lemma_faults_grow<D: BlockDevice, T: TimeSource>(
    volume: FatVolume,
    before: BlockCache<D>,
    time_source: &T,
    c: ClusterId,
    dir: NewDir,
    after: BlockCache<D>,
    left: FatVolume,
    error: Error<D::Error>,
)
    requires
        volume.publishes_dir(before, time_source, c, dir, after, left, Err(error)),
    ensures
        after.at_or_after(&before),
{
    let now = choose|now: Timestamp|
        tells(time_source, now) && #[trigger] volume.publishes_dir_at(
            before,
            time_source,
            c,
            dir,
            now,
            after,
            left,
            Err(error),
        );
}

/// A new file with a long name has no size and no cluster yet.
pub proof fn law_created_file_is_empty<D: BlockDevice, T: TimeSource>(
    volume: FatVolume,
    before: BlockCache<D>,
    time_source: &T,
    dir: ClusterId,
    long_name: Seq<char>,
    short_name: Seq<u8>,
    attributes: Attributes,
    after: BlockCache<D>,
    left: FatVolume,
    written: DirEntry,
)
    requires
        volume.is_sound(before.disk(), dir),
        volume.walk_in_reach(before.disk(), dir),
        volume.creation_in_reach(before.disk(), dir, long_name),
        volume.creates_entry(
            before,
            time_source,
            dir,
            long_name,
            short_name,
            attributes,
            after,
            left,
            Ok(written),
        ),
        short_name.len() == 11,
    ensures
        written.name.contents@ == short_name,
        written.attributes == attributes,
        written.size == 0,
        written.cluster.0 == 0,
        written.mtime == written.ctime,
        stands_written(volume, after.disk(), written),
{
    let now = choose|now: Timestamp|
        tells(time_source, now) && volume.writes_entry(
            before,
            dir,
            long_name,
            #[trigger] new_entry(
                short_name,
                attributes,
                ClusterId(ClusterId::EMPTY),
                now,
                0,
                0,
            ),
            after,
            left,
            Ok(written),
        );
    let entry = new_entry(short_name, attributes, ClusterId(ClusterId::EMPTY), now, 0, 0);
    lemma_stands_written(volume, before, dir, long_name, entry, after, left, written);
}

/// What was written under a long name stands written.
proof fn lemma_stands_written<D: BlockDevice>(
    volume: FatVolume,
    before: BlockCache<D>,
    dir: ClusterId,
    name: Seq<char>,
    entry: EntryView,
    after: BlockCache<D>,
    left: FatVolume,
    written: DirEntry,
)
    requires
        volume.is_sound(before.disk(), dir),
        volume.walk_in_reach(before.disk(), dir),
        volume.creation_in_reach(before.disk(), dir, name),
        volume.writes_entry(before, dir, name, entry, after, left, Ok(written)),
        entry.name.len() == 11,
    ensures
        describes_entry(written, entry),
        stands_written(volume, after.disk(), written),
{
    law_named_entry_is_written(volume, before, dir, name, entry, after, left, written);
    let slots = choose|slots: Seq<DirectorySlot>|
        {
            let pieces = chain_bytes(name, csum_of(entry.name));
            &&& #[trigger] distinct_slots(slots)
            &&& slots.len() == pieces.len() + 1
            &&& slots.last() == (DirectorySlot {
                block: written.entry_block,
                offset: written.entry_offset,
            })
            &&& slot_bytes(after.disk(), slots.last()) == entry_bytes(entry, volume.fat_type())
        };
    assert(slot_aligned(slots[slots.len() - 1]));
    assert(entry_bytes(entry, volume.fat_type()) == entry_bytes(written@, volume.fat_type()));
}

/// An entry that links to a file carries all that the one it was made from carries, but
/// for the name: the chain, the size, the attributes and the times.
pub proof fn law_linked_entry_is_the_same_file<D: BlockDevice>(
    volume: FatVolume,
    before: BlockCache<D>,
    dir: ClusterId,
    long_name: Seq<char>,
    short_name: Seq<u8>,
    source: DirEntry,
    after: BlockCache<D>,
    left: FatVolume,
    written: DirEntry,
)
    requires
        volume.is_sound(before.disk(), dir),
        volume.walk_in_reach(before.disk(), dir),
        volume.creation_in_reach(before.disk(), dir, long_name),
        volume.links_entry(
            before,
            dir,
            long_name,
            short_name,
            source@,
            after,
            left,
            Ok(written),
        ),
        short_name.len() == 11,
    ensures
        written.name.contents@ == short_name,
        written.cluster == source.cluster,
        written.size == source.size,
        written.attributes == source.attributes,
        written.ctime == source.ctime,
        written.mtime == source.mtime,
        stands_written(volume, after.disk(), written),
{
    let entry = EntryView { name: short_name, block: 0, offset: 0, ..source@ };
    lemma_stands_written(volume, before, dir, long_name, entry, after, left, written);
}

/// An entry that was stored again stands in the slot that it came from, and every other
/// slot is as it was.
pub proof fn law_stored_entry_stands_where_it_stood<D: BlockDevice>(
    volume: FatVolume,
    before: BlockCache<D>,
    entry: DirEntry,
    after: BlockCache<D>,
    other: DirectorySlot,
)
    requires
        whole_blocks(before.disk()),
        volume.stores_entry(before, entry@, after, Ok(())),
        entry.name.contents@.len() == 11,
        slot_aligned(
            DirectorySlot { block: entry.entry_block, offset: entry.entry_offset },
        ),
        slot_aligned(other),
    ensures
        stands_written(volume, after.disk(), entry),
        other != (DirectorySlot { block: entry.entry_block, offset: entry.entry_offset })
            ==> slot_bytes(after.disk(), other) == slot_bytes(before.disk(), other),
{
    let slot = DirectorySlot { block: entry.entry_block, offset: entry.entry_offset };
    law_entry_is_stored_so(entry@, volume.fat_type());
    let raw = entry_bytes(entry@, volume.fat_type());
    law_slot_reads_back(before.disk(), slot, raw, slot);
    law_slot_reads_back(before.disk(), slot, raw, other);
}

} // verus!
