//! Writing the entries of a directory.

use crate::allocation::HintSearch;
use crate::block::{BlockCache, BlockDevice, BlockIdx, Disk};
use crate::collections::slots_of;
use crate::deletion::{
    deletes, mark_directory_slots_deleted, slots_wf, with_slot, write_directory_slot,
};
use crate::directory::DirectorySlot;
use crate::entry::{
    entry_bytes, new_entry, Attributes, ClusterId, DirEntry, EntryView, FatType,
};
use crate::error::Error;
use crate::free_slots::{FreeOutcome, FreeSearch};
use crate::long_name::{
    encode_long_filename, lfn_bytes, long_name_length, serialize_lfn_entry, utf16,
    validate_long_filename, LFN_CHARS_PER_ENTRY,
};
use crate::name::{csum_of, ShortFileName};
use crate::table::Link;
use crate::time::{tells, TimeSource, Timestamp};
use crate::volume::FatVolume;
use vstd::prelude::*;

verus! {

/// How many pieces a name of `units` code units is cut into.
pub open spec fn piece_count(units: nat) -> nat {
    (units + 12) / 13
}

/// The piece number `sequence` of a name, counting from one.
pub open spec fn piece(units: Seq<u16>, sequence: int) -> Seq<u16> {
    units.subrange(
        (sequence - 1) * 13,
        if sequence * 13 < units.len() {
            sequence * 13
        } else {
            units.len() as int
        },
    )
}

/// The bytes of the slots that hold a long name, in the order in which they
/// stand: the last piece comes first.
pub open spec fn chain_bytes(long_name: Seq<char>, checksum: u8) -> Seq<Seq<u8>> {
    let units = utf16(long_name);
    let count = piece_count(units.len());
    Seq::new(
        count,
        |i: int|
            lfn_bytes((count - i) as u8, i == 0, checksum, piece(units, count - i)),
    )
}

/// The bytes of all the slots that an entry with a long name takes.
pub open spec fn entry_chain(long_name: Seq<char>, entry: EntryView, fat_type: FatType) -> Seq<
    Seq<u8>,
> {
    chain_bytes(long_name, csum_of(entry.name)).push(entry_bytes(entry, fat_type))
}

/// The disk once the first `n` of `raws` were written into `slots`, one after
/// the other.
pub open spec fn with_slots(
    disk: Disk,
    slots: Seq<DirectorySlot>,
    raws: Seq<Seq<u8>>,
    n: nat,
) -> Disk
    decreases n,
{
    if n == 0 {
        disk
    } else {
        with_slot(with_slots(disk, slots, raws, (n - 1) as nat), slots[n - 1], raws[n - 1])
    }
}

/// The entry `entry`, once it stands in `slot`.
pub open spec fn placed(entry: EntryView, slot: DirectorySlot) -> EntryView {
    EntryView { block: slot.block.0, offset: slot.offset, ..entry }
}

/// A try to write `raws` into `slots` that the device error `error` put an end
/// to. Some of them were written, never the last one, and then those were to be
/// deleted again. A further error can put an end to that, too; else none of them
/// is left.
pub open spec fn writing_fails<D: BlockDevice>(
    before: BlockCache<D>,
    slots: Seq<DirectorySlot>,
    raws: Seq<Seq<u8>>,
    error: D::Error,
    after: BlockCache<D>,
) -> bool {
    exists|j: nat, failed: BlockCache<D>, undone: Result<(), Error<D::Error>>|
        {
            &&& j < raws.len()
            &&& failed.failed_with(&before, error)
            &&& failed.disk() == with_slots(before.disk(), slots, raws, j)
            &&& #[trigger] deletes(failed, after, slots.take(j as int), undone)
        }
}

/// How the search for free slots ended, by its error.
pub open spec fn no_slots_because<E>(error: Error<E>) -> FreeOutcome {
    match error {
        Error::BadCluster => FreeOutcome::Broken(Link::Bad),
        Error::UnterminatedFatChain => FreeOutcome::Broken(Link::Free),
        _ => FreeOutcome::Full,
    }
}

/// Delete the first `written` of `slots` again, as far as that goes.
fn undo_chain<D: BlockDevice>(
    block_cache: &mut BlockCache<D>,
    slots: &[DirectorySlot],
    written: usize,
)
    requires
        old(block_cache).clean(),
        written <= slots@.len(),
        slots_wf(slots@),
    ensures
        final(block_cache).clean(),
        exists|undone: Result<(), Error<D::Error>>|
            #[trigger] deletes(
                *old(block_cache),
                *final(block_cache),
                slots@.take(written as int),
                undone,
            ),
{
    let done = vstd::slice::slice_subrange(slots, 0, written);
    assert(done@ =~= slots@.take(written as int));
    let _ = mark_directory_slots_deleted(block_cache, done);
}

/// Write an entry with a long name into the slots that were found for it: the
/// pieces of the name first, so that an interrupted write cannot expose the
/// entry without its long name. What was written before a failure is deleted
/// again, as far as that goes.
fn write_chain<D: BlockDevice>(
    block_cache: &mut BlockCache<D>,
    slots: &[DirectorySlot],
    long_name: &str,
    utf16_len: usize,
    checksum: u8,
    raw: &[u8; 32],
) -> (result: Result<(), Error<D::Error>>)
    requires
        old(block_cache).clean(),
        utf16_len == utf16(long_name@).len(),
        1 <= utf16_len <= 255,
        slots@.len() == piece_count(utf16_len as nat) + 1,
        slots_wf(slots@),
    ensures
        final(block_cache).clean(),
        ({
            let raws = chain_bytes(long_name@, checksum).push(raw@);
            match result {
                Ok(()) => {
                    &&& final(block_cache).untroubled(old(block_cache))
                    &&& final(block_cache).disk() == with_slots(
                        old(block_cache).disk(),
                        slots@,
                        raws,
                        slots@.len(),
                    )
                },
                Err(error) => {
                    error matches Error::DeviceError(e) && writing_fails(
                        *old(block_cache),
                        slots@,
                        raws,
                        e,
                        *final(block_cache),
                    )
                },
            }
        }),
{
    let ghost disk = block_cache.disk();
    let ghost units = utf16(long_name@);
    let ghost raws = chain_bytes(long_name@, checksum).push(raw@);
    let lfn_count: usize = (utf16_len + LFN_CHARS_PER_ENTRY - 1) / LFN_CHARS_PER_ENTRY;
    let utf16_units = encode_long_filename(long_name);
    let mut written: usize = 0;
    while written <= lfn_count
        invariant
            written <= lfn_count + 1,
            lfn_count == piece_count(utf16_len as nat),
            1 <= utf16_len <= 255,
            utf16_len == units.len(),
            units == utf16(long_name@),
            utf16_units@.take(utf16_len as int) == units,
            raws == chain_bytes(long_name@, checksum).push(raw@),
            slots@.len() == lfn_count + 1,
            slots_wf(slots@),
            disk == old(block_cache).disk(),
            block_cache.clean(),
            block_cache.untroubled(old(block_cache)),
            block_cache.disk() == with_slots(disk, slots@, raws, written as nat),
        decreases lfn_count + 1 - written,
    {
        let outcome = if written < lfn_count {
            let sequence: usize = lfn_count - written;
            let start: usize = (sequence - 1) * LFN_CHARS_PER_ENTRY;
            let end: usize = if start + LFN_CHARS_PER_ENTRY < utf16_len {
                start + LFN_CHARS_PER_ENTRY
            } else {
                utf16_len
            };
            let chunk = vstd::slice::slice_subrange(&utf16_units, start, end);
            assert(chunk@ =~= piece(units, sequence as int)) by {
                assert(units =~= utf16_units@.take(utf16_len as int));
            }
            let bytes = serialize_lfn_entry(sequence as u8, written == 0, checksum, chunk);
            assert(bytes@ == raws[written as int]);
            write_directory_slot(block_cache, slots[written], &bytes)
        } else {
            assert(raw@ == raws[written as int]);
            write_directory_slot(block_cache, slots[written], raw)
        };
        if let Err(error) = outcome {
            undo_chain(block_cache, slots, written);
            return Err(error);
        }
        written += 1;
    }
    Ok(())
}

impl FatVolume {
    /// How many slots an entry with this long name takes.
    pub open spec fn slots_for(long_name: Seq<char>) -> nat {
        piece_count(utf16(long_name).len()) + 1
    }

    /// Can an entry with this long name be written to a directory without
    /// leaving the numbers that fit?
    pub open spec fn creation_in_reach(
        self,
        disk: Disk,
        dir: ClusterId,
        long_name: Seq<char>,
    ) -> bool {
        long_name_length(long_name) is Ok ==> self.free_slots_in_reach(
            disk,
            dir,
            Self::slots_for(long_name),
        )
    }

    /// An operation that writes `entry`, under a long name, to the directory
    /// `dir`.
    ///
    /// A name that cannot be used is refused, and nothing changes. Else room is
    /// looked for. If it is found, the slots are written in order, the one that
    /// makes the file exist last. If the device reports an error meanwhile, what
    /// was written is deleted again as far as the device lets it. An error of the
    /// device is passed over only where it struck in the search for a hint, after
    /// the directory was made longer.
    pub open spec fn writes_entry<D: BlockDevice>(
        self,
        before: BlockCache<D>,
        dir: ClusterId,
        long_name: Seq<char>,
        entry: EntryView,
        after: BlockCache<D>,
        volume: FatVolume,
        result: Result<DirEntry, Error<D::Error>>,
    ) -> bool {
        let disk = before.disk();
        let needed = Self::slots_for(long_name);
        match long_name_length(long_name) {
            Err(error) => {
                &&& result == Err::<DirEntry, Error<D::Error>>(Error::FilenameError(error))
                &&& after.untroubled(&before)
                &&& volume == self
                &&& after.disk() == disk
            },
            Ok(_) => match result {
                Ok(written) => exists|searches: Seq<HintSearch>|
                    {
                        let search = #[trigger] self.free_slots(disk, dir, needed, searches);
                        &&& after.untroubled(&before) ==> searches == Seq::<
                            HintSearch,
                        >::empty()
                        &&& after.untroubled(&before) <==> !search.troubled
                        &&& volume == search.volume
                        &&& search.outcome matches FreeOutcome::Found(slots) && {
                            &&& written@ == placed(entry, slots.last())
                            &&& after.disk() == with_slots(
                                search.disk,
                                slots,
                                entry_chain(long_name, entry, self.fat_type()),
                                needed,
                            )
                        }
                    },
                Err(Error::DeviceError(e)) => {
                    &&& after.faults() > before.faults()
                    &&& {
                        ||| self.free_slots_fail(before, dir, needed, e, after, volume)
                        ||| exists|searches: Seq<HintSearch>, looked: BlockCache<D>|
                            {
                                let search = #[trigger] self.free_slots(
                                    disk,
                                    dir,
                                    needed,
                                    searches,
                                );
                                &&& looked.untroubled(&before) ==> searches == Seq::<
                                    HintSearch,
                                >::empty()
                                &&& looked.untroubled(&before) <==> !search.troubled
                                &&& #[trigger] looked.at_or_after(&before)
                                &&& looked.disk() == search.disk
                                &&& volume == search.volume
                                &&& search.outcome matches FreeOutcome::Found(slots)
                                    && writing_fails(
                                    looked,
                                    slots,
                                    entry_chain(long_name, entry, self.fat_type()),
                                    e,
                                    after,
                                )
                            }
                    }
                },
                Err(error) => {
                    &&& error is NotEnoughSpace || error is BadCluster || error
                        is UnterminatedFatChain
                    &&& exists|searches: Seq<HintSearch>|
                        {
                            &&& after.untroubled(&before) ==> searches == Seq::<
                                HintSearch,
                            >::empty()
                            &&& #[trigger] self.free_slots(disk, dir, needed, searches) == (
                            FreeSearch {
                                volume,
                                disk: after.disk(),
                                outcome: no_slots_because(error),
                                troubled: !after.untroubled(&before),
                            })
                        }
                },
            },
        }
    }

    /// Write a long-named directory entry describing a cluster chain.
    pub fn write_directory_entry_lfn<D: BlockDevice>(
        &mut self,
        block_cache: &mut BlockCache<D>,
        dir_cluster: ClusterId,
        long_name: &str,
        short_name: ShortFileName,
        attributes: Attributes,
        cluster: ClusterId,
        size: u32,
        ctime: Timestamp,
        mtime: Timestamp,
    ) -> (result: Result<DirEntry, Error<D::Error>>)
        requires
            old(block_cache).clean(),
            old(self).creation_in_reach(old(block_cache).disk(), dir_cluster, long_name@),
        ensures
            final(self).same_layout(*old(self)),
            final(block_cache).clean(),
            final(block_cache).at_or_after(old(block_cache)),
            old(self).writes_entry(
                *old(block_cache),
                dir_cluster,
                long_name@,
                (EntryView {
                    name: short_name.contents@,
                    mtime,
                    ctime,
                    attributes,
                    cluster,
                    size,
                    block: 0,
                    offset: 0,
                }),
                *final(block_cache),
                *final(self),
                result,
            ),
    {
        let utf16_len: usize = match validate_long_filename(long_name) {
            Ok(length) => length,
            Err(e) => return Err(Error::FilenameError(e)),
        };
        let fat_type = self.get_fat_type();
        let lfn_count: usize = (utf16_len + LFN_CHARS_PER_ENTRY - 1) / LFN_CHARS_PER_ENTRY;
        let found = match self.find_free_directory_slots(block_cache, dir_cluster, lfn_count + 1) {
            Ok(found) => found,
            Err(e) => return Err(e),
        };
        let ghost found_at = block_cache.disk();
        let slots = slots_of(&found);
        let short_slot = slots[lfn_count];
        let mut entry = DirEntry::new(
            short_name,
            attributes,
            cluster,
            ctime,
            short_slot.block,
            short_slot.offset,
        );
        entry.mtime = mtime;
        entry.size = size;
        let raw = entry.serialize(fat_type);
        let ghost unplaced = EntryView { block: 0, offset: 0, ..entry@ };
        assert(entry_bytes(entry@, fat_type) == entry_bytes(unplaced, fat_type));
        assert(entry_chain(long_name@, unplaced, fat_type) == chain_bytes(
            long_name@,
            csum_of(short_name.contents@),
        ).push(raw@));
        match write_chain(block_cache, slots, long_name, utf16_len, short_name.csum(), &raw) {
            Ok(()) => Ok(entry),
            Err(e) => Err(e),
        }
    }

    /// An operation that writes a new entry under a long name, for a file of no size
    /// that has no cluster yet, at some instant that the time source gives.
    pub open spec fn creates_entry<D: BlockDevice, T: TimeSource>(
        self,
        before: BlockCache<D>,
        time_source: &T,
        dir: ClusterId,
        long_name: Seq<char>,
        short_name: Seq<u8>,
        attributes: Attributes,
        after: BlockCache<D>,
        volume: FatVolume,
        result: Result<DirEntry, Error<D::Error>>,
    ) -> bool {
        exists|now: Timestamp|
            tells(time_source, now) && self.writes_entry(
                before,
                dir,
                long_name,
                #[trigger] new_entry(
                    short_name,
                    attributes,
                    ClusterId(ClusterId::EMPTY),
                    now,
                    0,
                    0,
                ),
                after,
                volume,
                result,
            )
    }

    /// An operation that writes an entry under a long name for a file that `source`
    /// names already.
    pub open spec fn links_entry<D: BlockDevice>(
        self,
        before: BlockCache<D>,
        dir: ClusterId,
        long_name: Seq<char>,
        short_name: Seq<u8>,
        source: EntryView,
        after: BlockCache<D>,
        volume: FatVolume,
        result: Result<DirEntry, Error<D::Error>>,
    ) -> bool {
        self.writes_entry(
            before,
            dir,
            long_name,
            EntryView { name: short_name, block: 0, offset: 0, ..source },
            after,
            volume,
            result,
        )
    }

    /// Write a VFAT long-file-name chain followed by its short-name entry.
    ///
    /// The caller supplies a unique 8.3 alias. Long-name entries are written
    /// first so an interrupted create cannot expose an SFN without its LFN. The
    /// file has no clusters and no size yet, and the times are the current one.
    pub fn write_new_directory_entry_lfn<D: BlockDevice, T: TimeSource>(
        &mut self,
        block_cache: &mut BlockCache<D>,
        time_source: &T,
        dir_cluster: ClusterId,
        long_name: &str,
        short_name: ShortFileName,
        attributes: Attributes,
    ) -> (result: Result<DirEntry, Error<D::Error>>)
        requires
            old(block_cache).clean(),
            old(self).creation_in_reach(old(block_cache).disk(), dir_cluster, long_name@),
        ensures
            final(self).same_layout(*old(self)),
            final(block_cache).clean(),
            final(block_cache).at_or_after(old(block_cache)),
            old(self).creates_entry(
                *old(block_cache),
                time_source,
                dir_cluster,
                long_name@,
                short_name.contents@,
                attributes,
                *final(block_cache),
                *final(self),
                result,
            ),
    {
        let ctime = time_source.get_timestamp();
        let ghost entry = new_entry(
            short_name.contents@,
            attributes,
            ClusterId(ClusterId::EMPTY),
            ctime,
            0,
            0,
        );
        self.write_directory_entry_lfn(
            block_cache,
            dir_cluster,
            long_name,
            short_name,
            attributes,
            ClusterId(ClusterId::EMPTY),
            0,
            ctime,
            ctime,
        )
    }

    /// Write a long-named directory entry describing a cluster chain that
    /// already exists.
    ///
    /// This is half of a same-volume move: it gives an existing chain a second
    /// name, and `delete_directory_entry` then takes the first one away without
    /// touching the chain itself.
    pub fn write_linked_directory_entry_lfn<D: BlockDevice>(
        &mut self,
        block_cache: &mut BlockCache<D>,
        dir_cluster: ClusterId,
        long_name: &str,
        short_name: ShortFileName,
        source: &DirEntry,
    ) -> (result: Result<DirEntry, Error<D::Error>>)
        requires
            old(block_cache).clean(),
            old(self).creation_in_reach(old(block_cache).disk(), dir_cluster, long_name@),
        ensures
            final(self).same_layout(*old(self)),
            final(block_cache).clean(),
            final(block_cache).at_or_after(old(block_cache)),
            old(self).links_entry(
                *old(block_cache),
                dir_cluster,
                long_name@,
                short_name.contents@,
                source@,
                *final(block_cache),
                *final(self),
                result,
            ),
    {
        self.write_directory_entry_lfn(
            block_cache,
            dir_cluster,
            long_name,
            short_name,
            source.attributes,
            source.cluster,
            source.size,
            source.ctime,
            source.mtime,
        )
    }

    /// An operation that writes a new entry without a long name to the first
    /// free slot of the directory `dir`, and makes the directory longer if there
    /// is none.
    pub open spec fn adds_entry<D: BlockDevice, T: TimeSource>(
        self,
        before: BlockCache<D>,
        time_source: &T,
        dir: ClusterId,
        name: Seq<u8>,
        attributes: Attributes,
        cluster: ClusterId,
        after: BlockCache<D>,
        volume: FatVolume,
        result: Result<DirEntry, Error<D::Error>>,
    ) -> bool {
        let disk = before.disk();
        match result {
            Ok(written) => exists|searches: Seq<HintSearch>|
                {
                    let search = #[trigger] self.free_slots(disk, dir, 1, searches);
                    &&& after.untroubled(&before) ==> searches == Seq::<HintSearch>::empty()
                    &&& after.untroubled(&before) <==> !search.troubled
                    &&& tells(time_source, written.ctime)
                    &&& volume == search.volume
                    &&& search.outcome matches FreeOutcome::Found(slots) && {
                        let entry = new_entry(name, attributes, cluster, written.ctime, 0, 0);
                        &&& written@ == placed(entry, slots[0])
                        &&& after.disk() == with_slot(
                            search.disk,
                            slots[0],
                            entry_bytes(entry, self.fat_type()),
                        )
                    }
                },
            Err(Error::DeviceError(e)) => {
                &&& after.faults() > before.faults()
                &&& {
                    ||| self.free_slots_fail(before, dir, 1, e, after, volume)
                    ||| exists|searches: Seq<HintSearch>, looked: BlockCache<D>|
                        {
                            let search = #[trigger] self.free_slots(disk, dir, 1, searches);
                            &&& looked.untroubled(&before) ==> searches == Seq::<
                                HintSearch,
                            >::empty()
                            &&& looked.untroubled(&before) <==> !search.troubled
                            &&& looked.at_or_after(&before)
                            &&& #[trigger] after.failed_with(&looked, e)
                            &&& search.outcome is Found
                            &&& volume == search.volume
                            &&& after.disk() == search.disk
                        }
                }
            },
            Err(error) => {
                &&& error is NotEnoughSpace || error is BadCluster || error is UnterminatedFatChain
                &&& exists|searches: Seq<HintSearch>|
                    {
                        &&& after.untroubled(&before) ==> searches == Seq::<
                            HintSearch,
                        >::empty()
                        &&& #[trigger] self.free_slots(disk, dir, 1, searches) == (FreeSearch {
                            volume,
                            disk: after.disk(),
                            outcome: no_slots_because(error),
                            troubled: !after.untroubled(&before),
                        })
                    }
            },
        }
    }

    /// Finds an empty entry space and writes the new entry to it, allocates a
    /// new cluster if it's needed.
    pub fn write_new_directory_entry<D: BlockDevice, T: TimeSource>(
        &mut self,
        block_cache: &mut BlockCache<D>,
        time_source: &T,
        dir_cluster: ClusterId,
        name: ShortFileName,
        attributes: Attributes,
        first_cluster: ClusterId,
    ) -> (result: Result<DirEntry, Error<D::Error>>)
        requires
            old(block_cache).clean(),
            old(self).free_slots_in_reach(old(block_cache).disk(), dir_cluster, 1),
        ensures
            final(self).same_layout(*old(self)),
            final(block_cache).clean(),
            final(block_cache).at_or_after(old(block_cache)),
            old(self).adds_entry(
                *old(block_cache),
                time_source,
                dir_cluster,
                name.contents@,
                attributes,
                first_cluster,
                *final(block_cache),
                *final(self),
                result,
            ),
    {
        let fat_type = self.get_fat_type();
        let found = match self.find_free_directory_slots(block_cache, dir_cluster, 1) {
            Ok(found) => found,
            Err(e) => return Err(e),
        };
        let slot = slots_of(&found)[0];
        let ctime = time_source.get_timestamp();
        let entry = DirEntry::new(
            name,
            attributes,
            first_cluster,
            ctime,
            slot.block,
            slot.offset,
        );
        let raw = entry.serialize(fat_type);
        let ghost unplaced = new_entry(name.contents@, attributes, first_cluster, ctime, 0, 0);
        assert(entry_bytes(entry@, fat_type) == entry_bytes(unplaced, fat_type));
        match write_directory_slot(block_cache, slot, &raw) {
            Ok(()) => Ok(entry),
            Err(e) => Err(e),
        }
    }

    /// An operation that writes an entry into the slot that it came from. If the device
    /// reports an error, that is the outcome, and nothing changes.
    pub open spec fn stores_entry<D: BlockDevice>(
        self,
        before: BlockCache<D>,
        entry: EntryView,
        after: BlockCache<D>,
        result: Result<(), Error<D::Error>>,
    ) -> bool {
        match result {
            Ok(()) => {
                &&& after.untroubled(&before)
                &&& after.disk() == with_slot(
                    before.disk(),
                    (DirectorySlot { block: BlockIdx(entry.block), offset: entry.offset }),
                    entry_bytes(entry, self.fat_type()),
                )
            },
            Err(error) => {
                &&& error matches Error::DeviceError(e) && after.failed_with(&before, e)
                &&& after.disk() == before.disk()
            },
        }
    }

    /// Writes a directory entry to the disk, into the slot that it came from.
    pub fn write_entry_to_disk<D: BlockDevice>(
        &self,
        block_cache: &mut BlockCache<D>,
        entry: &DirEntry,
    ) -> (result: Result<(), Error<D::Error>>)
        requires
            old(block_cache).clean(),
            entry.entry_offset <= 480,
        ensures
            final(block_cache).clean(),
            self.stores_entry(*old(block_cache), entry@, *final(block_cache), result),
    {
        let slot = DirectorySlot { block: entry.entry_block, offset: entry.entry_offset };
        let raw = entry.serialize(self.get_fat_type());
        write_directory_slot(block_cache, slot, &raw)
    }
}

} // verus!
