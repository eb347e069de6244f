//! Finding all the slots that an entry takes, and deleting it.

use crate::block::{BlockCache, BlockDevice, Disk};
use crate::bytes::{copy_into, splice};
use crate::collections::{clear_slots, no_slots, push_slot, slot_list, slots_of};
use crate::directory::{end_link, ran_to, Cursor, DirectorySlot, Met, Step};
use crate::entry::{
    slot_is_end, slot_is_lfn, slot_is_valid, slot_lfn, ClusterId, DirectoryInfo, LfnContents,
    LfnView,
};
use crate::error::Error;
use crate::name::{csum_of, ShortFileName};
use crate::table::Link;
use crate::volume::FatVolume;
use vstd::prelude::*;

verus! {

/// The slots of a long name that have been met so far.
pub struct Pending {
    /// The slots, in the order in which they stand.
    pub slots: Seq<DirectorySlot>,
    /// The checksum of the first one.
    pub checksum: u8,
    /// The number of the piece that comes next, or zero if that was all.
    pub next: u8,
    /// Have any been met?
    pub active: bool,
}

impl Pending {
    /// None have been met.
    pub open spec fn cleared(self) -> Pending {
        Pending { slots: Seq::empty(), checksum: self.checksum, next: 0, active: false }
    }

    /// One more slot that holds a piece of a long name was met.
    pub open spec fn observed(self, piece: LfnView, slot: DirectorySlot) -> Pending {
        if piece.is_start && 1 <= piece.sequence <= 20 {
            Pending {
                slots: seq![slot],
                checksum: piece.csum,
                next: (piece.sequence - 1) as u8,
                active: true,
            }
        } else if self.active && piece.csum == self.checksum && piece.sequence != 0
            && piece.sequence == self.next {
            Pending {
                slots: self.slots.push(slot),
                checksum: self.checksum,
                next: (self.next - 1) as u8,
                active: true,
            }
        } else {
            self.cleared()
        }
    }

    /// The slots that the short entry of this name takes, if it comes next and
    /// stands in `slot`.
    pub open spec fn taken_by(self, name: Seq<u8>, slot: DirectorySlot) -> Seq<DirectorySlot> {
        if self.active && self.next == 0 && self.checksum == csum_of(name) {
            self.slots.push(slot)
        } else {
            seq![slot]
        }
    }
}

/// What looking for the slots of an entry leads to.
pub struct SlotSearch {
    /// The slots: those of the long name first, then that of the entry itself.
    pub found: Option<Seq<DirectorySlot>>,
    /// The link that the search came to: the end, unless the chain is broken.
    pub end: Link,
}

/// The slots of a long name that have been met so far.
struct PendingLfnSlots {
    slots: heapless::Vec<DirectorySlot, 21>,
    checksum: u8,
    next_sequence: u8,
    active: bool,
}

impl View for PendingLfnSlots {
    type V = Pending;

    closed spec fn view(&self) -> Pending {
        Pending {
            slots: slot_list(self.slots),
            checksum: self.checksum,
            next: self.next_sequence,
            active: self.active,
        }
    }
}

impl PendingLfnSlots {
    /// There is room for as many slots as are yet to come.
    spec fn wf(&self) -> bool {
        if self.active {
            slot_list(self.slots).len() + self.next_sequence <= 20
        } else {
            slot_list(self.slots).len() == 0
        }
    }

    fn new() -> (pending: PendingLfnSlots)
        ensures
            pending.wf(),
            pending@ == (Pending { slots: Seq::empty(), checksum: 0, next: 0, active: false }),
    {
        PendingLfnSlots { slots: no_slots(), checksum: 0, next_sequence: 0, active: false }
    }

    fn clear(&mut self)
        ensures
            final(self).wf(),
            final(self)@ == old(self)@.cleared(),
    {
        clear_slots(&mut self.slots);
        self.active = false;
        self.next_sequence = 0;
    }

    fn observe(&mut self, piece: &LfnContents, slot: DirectorySlot)
        requires
            old(self).wf(),
        ensures
            final(self).wf(),
            final(self)@ == old(self)@.observed(piece@, slot),
    {
        let sequence: u8 = piece.sequence;
        if piece.is_start && sequence >= 1 && sequence <= 20 {
            self.clear();
            self.active = true;
            self.checksum = piece.csum;
            self.next_sequence = sequence - 1;
            let _ = push_slot(&mut self.slots, slot);
            assert(slot_list(self.slots) =~= seq![slot]);
        } else if self.active && piece.csum == self.checksum && sequence != 0 && sequence
            == self.next_sequence {
            self.next_sequence = self.next_sequence - 1;
            let _ = push_slot(&mut self.slots, slot);
        } else {
            self.clear();
        }
    }

    fn belongs_to(&self, short_name: &ShortFileName) -> (belongs: bool)
        ensures
            belongs == (self@.active && self@.next == 0 && self@.checksum == csum_of(
                short_name.contents@,
            )),
    {
        self.active && self.next_sequence == 0 && self.checksum == short_name.csum()
    }
}

/// The disk once `raw` was written into a slot.
pub open spec fn with_slot(disk: Disk, slot: DirectorySlot, raw: Seq<u8>) -> Disk {
    disk.insert(slot.block.0, splice(disk[slot.block.0], slot.offset as int, raw))
}

/// The disk once a slot was marked as deleted.
pub open spec fn with_deleted(disk: Disk, slot: DirectorySlot) -> Disk {
    disk.insert(slot.block.0, disk[slot.block.0].update(slot.offset as int, 0xE5))
}

/// The disk once the first `n` of `slots` were marked as deleted, one after the
/// other.
pub open spec fn with_deletions(disk: Disk, slots: Seq<DirectorySlot>, n: nat) -> Disk
    decreases n,
{
    if n == 0 {
        disk
    } else {
        with_deleted(with_deletions(disk, slots, (n - 1) as nat), slots[n - 1])
    }
}

/// The order in which the slots of an entry are marked: the last one, which
/// makes the file exist, comes first.
pub open spec fn deletion_order(slots: Seq<DirectorySlot>) -> Seq<DirectorySlot> {
    seq![slots.last()] + slots.drop_last()
}

/// Does each of `slots` lie within its block?
pub open spec fn slots_wf(slots: Seq<DirectorySlot>) -> bool {
    forall|i: int| 0 <= i < slots.len() ==> (#[trigger] slots[i]).offset <= 480
}

/// Write `raw` into a slot. A failure changes nothing.
pub(crate) fn write_directory_slot<D: BlockDevice>(
    block_cache: &mut BlockCache<D>,
    slot: DirectorySlot,
    raw: &[u8; 32],
) -> (result: Result<(), Error<D::Error>>)
    requires
        old(block_cache).clean(),
        slot.offset <= 480,
    ensures
        final(block_cache).clean(),
        match result {
            Ok(()) => {
                &&& final(block_cache).untroubled(old(block_cache))
                &&& final(block_cache).disk() == with_slot(old(block_cache).disk(), slot, raw@)
            },
            Err(error) => {
                &&& error matches Error::DeviceError(e) && final(block_cache).failed_with(
                    old(block_cache),
                    e,
                )
                &&& final(block_cache).disk() == old(block_cache).disk()
            },
        },
{
    let block = match block_cache.read_mut(slot.block) {
        Ok(block) => block,
        Err(e) => return Err(Error::DeviceError(e)),
    };
    copy_into(&mut block.contents, slot.offset as usize, raw);
    match block_cache.write_back() {
        Ok(()) => Ok(()),
        Err(e) => Err(Error::DeviceError(e)),
    }
}

/// Mark a slot as deleted. A failure changes nothing.
fn mark_one_slot_deleted<D: BlockDevice>(block_cache: &mut BlockCache<D>, slot: &DirectorySlot) -> (result:
    Result<(), Error<D::Error>>)
    requires
        old(block_cache).clean(),
        slot.offset <= 480,
    ensures
        final(block_cache).clean(),
        match result {
            Ok(()) => {
                &&& final(block_cache).untroubled(old(block_cache))
                &&& final(block_cache).disk() == with_deleted(old(block_cache).disk(), *slot)
            },
            Err(error) => {
                &&& error matches Error::DeviceError(e) && final(block_cache).failed_with(
                    old(block_cache),
                    e,
                )
                &&& final(block_cache).disk() == old(block_cache).disk()
            },
        },
{
    let block = match block_cache.read_mut(slot.block) {
        Ok(block) => block,
        Err(e) => return Err(Error::DeviceError(e)),
    };
    block.contents[slot.offset as usize] = 0xE5;
    match block_cache.write_back() {
        Ok(()) => Ok(()),
        Err(e) => Err(Error::DeviceError(e)),
    }
}

/// Retire a directory entry by marking each of its slots deleted.
///
/// `slots` arrives as it sits on the disk: the long-name entries first, then
/// the short entry they belong to. The short entry is what makes the file
/// exist, and it is marked first: fail on it and nothing has changed, fail
/// after it and the file is gone, which is what the caller asked for. A failure
/// after it is therefore not reported. It leaves long-name entries with no
/// short entry behind them, which readers skip.
pub(crate) fn mark_directory_slots_deleted<D: BlockDevice>(
    block_cache: &mut BlockCache<D>,
    slots: &[DirectorySlot],
) -> (result: Result<(), Error<D::Error>>)
    requires
        old(block_cache).clean(),
        slots_wf(slots@),
    ensures
        final(block_cache).clean(),
        deletes(*old(block_cache), *final(block_cache), slots@, result),
{
    let count: usize = slots.len();
    if count == 0 {
        return Ok(());
    }
    let ghost order = deletion_order(slots@);
    let ghost disk = block_cache.disk();
    // The commit point. Its failure is the caller's failure.
    match mark_one_slot_deleted(block_cache, &slots[count - 1]) {
        Ok(()) => {},
        Err(e) => return Err(e),
    }
    assert(order[0] == slots@[count - 1]);
    assert(block_cache.disk() == with_deletions(disk, order, 1)) by {
        reveal_with_fuel(with_deletions, 2);
    }
    // Past here the entry is gone whatever happens; what is left is tidying.
    let mut i: usize = 0;
    while i + 1 < count
        invariant
            count == slots@.len(),
            i + 1 <= count,
            slots_wf(slots@),
            order == deletion_order(slots@),
            disk == old(block_cache).disk(),
            block_cache.clean(),
            block_cache.untroubled(old(block_cache)),
            block_cache.disk() == with_deletions(disk, order, (i + 1) as nat),
        decreases count - i,
    {
        assert(order[i + 1] == slots@[i as int]);
        if let Err(_) = mark_one_slot_deleted(block_cache, &slots[i]) {
            return Ok(());
        }
        i += 1;
    }
    Ok(())
}

/// An operation that deletes the entry in `slots`. If it fails it has changed
/// nothing; if it succeeds it has marked the last slot at least, and all of
/// them unless the device reported an error. Where there are no slots, there is
/// nothing that can fail.
pub open spec fn deletes<D: BlockDevice>(
    before: BlockCache<D>,
    after: BlockCache<D>,
    slots: Seq<DirectorySlot>,
    result: Result<(), Error<D::Error>>,
) -> bool {
    match result {
        Ok(()) => if slots.len() == 0 {
            after.untroubled(&before) && after.disk() == before.disk()
        } else if after.untroubled(&before) {
            after.disk() == with_deletions(before.disk(), deletion_order(slots), slots.len())
        } else {
            &&& after.failed_with(&before, after.last_fault())
            &&& exists|n: nat|
                1 <= n < slots.len() && after.disk() == #[trigger] with_deletions(
                    before.disk(),
                    deletion_order(slots),
                    n,
                )
        },
        Err(error) => {
            &&& slots.len() > 0
            &&& error matches Error::DeviceError(e) && after.failed_with(&before, e)
            &&& after.disk() == before.disk()
        },
    }
}

impl FatVolume {
    /// What looking for the slots of the entry `name` leads to, if that ends
    /// within `n` steps and stays in reach.
    pub open spec fn entry_slots_within(
        self,
        disk: Disk,
        at: Cursor,
        pending: Pending,
        name: Seq<u8>,
        n: nat,
    ) -> Option<SlotSearch>
        decreases n,
    {
        if n == 0 {
            None
        } else {
            match self.step(disk, at) {
                Step::Slot(slot, raw, next) => if slot_is_end(raw) {
                    Some(SlotSearch { found: None, end: Link::End })
                } else if !slot_is_valid(raw) {
                    self.entry_slots_within(disk, next, pending.cleared(), name, (n - 1) as nat)
                } else if slot_is_lfn(raw) {
                    self.entry_slots_within(
                        disk,
                        next,
                        pending.observed(slot_lfn(raw), slot),
                        name,
                        (n - 1) as nat,
                    )
                } else if raw.take(11) == name {
                    Some(SlotSearch { found: Some(pending.taken_by(name, slot)), end: Link::End })
                } else {
                    self.entry_slots_within(disk, next, pending.cleared(), name, (n - 1) as nat)
                },
                Step::Enter(next) => self.entry_slots_within(
                    disk,
                    next,
                    pending,
                    name,
                    (n - 1) as nat,
                ),
                Step::End(end) => Some(SlotSearch { found: None, end: end_link(end) }),
                Step::OutOfReach => None,
            }
        }
    }

    /// What looking for the slots of the entry `name` in a directory leads to,
    /// or `None` if that does not end or goes out of reach.
    pub open spec fn entry_slots(self, disk: Disk, dir: ClusterId, name: Seq<u8>) -> Option<
        SlotSearch,
    > {
        let start = self.dir_start(dir);
        let none = Pending { slots: Seq::empty(), checksum: 0, next: 0, active: false };
        if self.dir_in_reach(dir) && exists|n: nat|
            self.entry_slots_within(disk, start, none, name, n) is Some {
            self.entry_slots_within(
                disk,
                start,
                none,
                name,
                choose|n: nat| self.entry_slots_within(disk, start, none, name, n) is Some,
            )
        } else {
            None
        }
    }

    /// Find the slots that the entry of this name takes.
    fn find_directory_entry_slots<D: BlockDevice>(
        &self,
        block_cache: &mut BlockCache<D>,
        dir_info: &DirectoryInfo,
        match_name: &ShortFileName,
    ) -> (result: Result<heapless::Vec<DirectorySlot, 21>, Error<D::Error>>)
        requires
            old(block_cache).clean(),
            self.entry_slots(
                old(block_cache).disk(),
                dir_info.cluster,
                match_name.contents@,
            ) is Some,
        ensures
            final(block_cache).clean(),
            final(block_cache).disk() == old(block_cache).disk(),
            if final(block_cache).untroubled(old(block_cache)) {
                let search = self.entry_slots(
                    old(block_cache).disk(),
                    dir_info.cluster,
                    match_name.contents@,
                )->0;
                match (search.found, ran_to::<D::Error>(search.end)) {
                    (Some(slots), _) => {
                        &&& result matches Ok(list) && slot_list(list) == slots
                        &&& slots_wf(slots)
                    },
                    (None, Ok(())) => result matches Err(Error::NotFound),
                    (None, Err(error)) => result matches Err(e) && e == error,
                }
            } else {
                result matches Err(Error::DeviceError(e)) && final(block_cache).failed_with(
                    old(block_cache),
                    e,
                )
            },
    {
        let ghost disk = block_cache.disk();
        let ghost name = match_name.contents@;
        let mut at = self.open_cursor(dir_info.cluster);
        let mut pending = PendingLfnSlots::new();
        let ghost whole = self.entry_slots(disk, dir_info.cluster, name)->0;
        let ghost mut fuel = choose|n: nat|
            self.entry_slots_within(disk, at, pending@, name, n) is Some;
        loop
            invariant
                block_cache.clean(),
                block_cache.disk() == disk,
                disk == old(block_cache).disk(),
                block_cache.untroubled(old(block_cache)),
                name == match_name.contents@,
                at.wf(),
                pending.wf(),
                slots_wf(pending@.slots),
                self.entry_slots(disk, dir_info.cluster, name) == Some(whole),
                self.entry_slots_within(disk, at, pending@, name, fuel) == Some(whole),
            decreases fuel,
        {
            let met = match self.advance(block_cache, &mut at) {
                Ok(met) => met,
                Err(e) => return Err(e),
            };
            match met {
                Met::Slot(slot, entry) => {
                    if entry.is_end() {
                        return Err(Error::NotFound);
                    }
                    if !entry.is_valid() {
                        pending.clear();
                    } else if let Some(piece) = entry.lfn_contents() {
                        pending.observe(&piece, slot);
                    } else if entry.matches(match_name) {
                        let ghost known = pending@;
                        let mut slots = no_slots();
                        if pending.belongs_to(match_name) {
                            slots = pending.slots;
                        }
                        let _ = push_slot(&mut slots, slot);
                        assert(slot_list(slots) =~= known.taken_by(name, slot));
                        return Ok(slots);
                    } else {
                        pending.clear();
                    }
                },
                Met::Cluster => {},
                Met::EndOfRegion => return Err(Error::NotFound),
                Met::EndOfChain(_) => return Err(Error::NotFound),
            }
            proof {
                fuel = (fuel - 1) as nat;
            }
        }
    }

    /// An operation that deletes the entry `name` of a directory. Where there is none,
    /// nothing changes and that is the outcome; an error of the device is the outcome
    /// where it struck before the entry was gone.
    pub open spec fn removes_entry<D: BlockDevice>(
        self,
        before: BlockCache<D>,
        dir: ClusterId,
        name: Seq<u8>,
        after: BlockCache<D>,
        result: Result<(), Error<D::Error>>,
    ) -> bool {
        let search = self.entry_slots(before.disk(), dir, name)->0;
        match result {
            Err(Error::DeviceError(e)) => {
                &&& after.failed_with(&before, e)
                &&& after.disk() == before.disk()
            },
            _ => match search.found {
                Some(slots) => result is Ok && deletes(before, after, slots, result),
                None => {
                    &&& after.untroubled(&before)
                    &&& after.disk() == before.disk()
                    &&& match ran_to::<D::Error>(search.end) {
                        Ok(()) => result matches Err(Error::NotFound),
                        Err(error) => result matches Err(e) && e == error,
                    }
                },
            },
        }
    }

    /// Delete an entry from the given directory, along with its long name.
    ///
    /// The name is gone once this succeeds, and it is untouched if this fails.
    pub fn delete_directory_entry<D: BlockDevice>(
        &self,
        block_cache: &mut BlockCache<D>,
        dir_info: &DirectoryInfo,
        match_name: &ShortFileName,
    ) -> (result: Result<(), Error<D::Error>>)
        requires
            old(block_cache).clean(),
            self.entry_slots(
                old(block_cache).disk(),
                dir_info.cluster,
                match_name.contents@,
            ) is Some,
        ensures
            final(block_cache).clean(),
            self.removes_entry(
                *old(block_cache),
                dir_info.cluster,
                match_name.contents@,
                *final(block_cache),
                result,
            ),
    {
        match self.find_directory_entry_slots(block_cache, dir_info, match_name) {
            Ok(slots) => mark_directory_slots_deleted(block_cache, slots_of(&slots)),
            Err(e) => Err(e),
        }
    }
}

} // verus!
