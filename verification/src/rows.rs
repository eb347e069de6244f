//! What is told of a directory, in terms of the bytes of its slots: which slots it
//! has, which of them hold entries, and what lookups and listings say of those.

use crate::alias::{candidate, candidate_name, lemma_candidate, AliasOutcome};
use crate::block::Disk;
use crate::directory::{slot_bytes, Cursor, DirectorySlot};
use crate::entry::{
    slot_entry, slot_is_end, slot_is_lfn, slot_is_valid, slot_lfn, ClusterId, EntryView, LfnView,
};
use crate::iterate::{Visit, Watcher};
use crate::laws::{law_alias_is_free, slot_aligned, whole_blocks};
use crate::listing::{gathered, long_name_for, Gather, Listing, LongNameVisitor, LongNames};
use crate::lfn_buffer::{utf8_length, LfnText};
use crate::long_lookup::{
    bears_name, chain_reads, chain_units, decided, LongNameFinder, LongSought,
};
use crate::long_name::{law_text_spells_itself, reads_as, trim_end, trimmed, utf16};
use crate::lookup::{ShortNameFinder, Sought};
use crate::name::{csum_of, short_name_of};
use crate::table::Link;
use crate::volume::FatVolume;
use crate::walk::law_visit_is_told;
use vstd::prelude::*;

verus! {

/// The byte number `k` of a slot.
pub open spec fn slot_byte(disk: Disk, slot: DirectorySlot, k: int) -> u8 {
    disk[slot.block.0][slot.offset + k]
}

/// Was this slot never used?
pub open spec fn is_unused(disk: Disk, slot: DirectorySlot) -> bool {
    slot_byte(disk, slot, 0) == 0
}

/// Does this slot hold something, be it an entry or a piece of a long name?
pub open spec fn is_live(disk: Disk, slot: DirectorySlot) -> bool {
    slot_byte(disk, slot, 0) != 0 && slot_byte(disk, slot, 0) != 0xE5
}

/// Does this slot hold an entry? All of its attributes may be set but for the four
/// by which a piece of a long name is known, all together.
pub open spec fn is_entry(disk: Disk, slot: DirectorySlot) -> bool {
    is_live(disk, slot) && slot_byte(disk, slot, 11) % 16 != 15
}

/// Does this slot have these eleven bytes for a name?
pub open spec fn is_named(disk: Disk, slot: DirectorySlot, name: Seq<u8>) -> bool {
    name.len() == 11 && forall|k: int|
        0 <= k < 11 ==> #[trigger] name[k] == slot_byte(disk, slot, k)
}

/// Are the first `n` of these slots those that a search looks at: was none of them
/// never used, and are these all the slots, or was the next one never used?
pub open spec fn looked_at(disk: Disk, slots: Seq<DirectorySlot>, n: int) -> bool {
    &&& 0 <= n <= slots.len()
    &&& forall|i: int| 0 <= i < n ==> !is_unused(disk, #[trigger] slots[i])
    &&& n < slots.len() ==> is_unused(disk, slots[n])
}

/// Do all of these slots lie within their blocks?
pub open spec fn all_aligned(slots: Seq<DirectorySlot>) -> bool {
    forall|i: int| 0 <= i < slots.len() ==> slot_aligned(#[trigger] slots[i])
}

/// The bytes of a slot are those on the disk.
pub proof fn lemma_slot_bytes(disk: Disk, slot: DirectorySlot)
    requires
        whole_blocks(disk),
        slot_aligned(slot),
    ensures
        ({
            let raw = slot_bytes(disk, slot);
            &&& raw.len() == 32
            &&& forall|k: int| 0 <= k < 32 ==> #[trigger] raw[k] == slot_byte(disk, slot, k)
            &&& slot_is_end(raw) == is_unused(disk, slot)
            &&& slot_is_valid(raw) == is_live(disk, slot)
            &&& slot_is_valid(raw) && !slot_is_lfn(raw) <==> is_entry(disk, slot)
        }),
{
    let raw = slot_bytes(disk, slot);
    assert(disk[slot.block.0].len() == 512);
    assert(raw[0] == slot_byte(disk, slot, 0));
    assert(raw[11] == slot_byte(disk, slot, 11));
}

/// A slot has a name just where its first eleven bytes are that name.
pub proof fn lemma_named(disk: Disk, slot: DirectorySlot, name: Seq<u8>)
    requires
        whole_blocks(disk),
        slot_aligned(slot),
    ensures
        is_named(disk, slot, name) <==> slot_bytes(disk, slot).take(11) == name,
{
    lemma_slot_bytes(disk, slot);
    let own = slot_bytes(disk, slot).take(11);
    assert forall|k: int| 0 <= k < 11 implies #[trigger] own[k] == slot_byte(disk, slot, k) by {
        assert(own[k] == slot_bytes(disk, slot)[k]);
    }
    if own == name {
        assert forall|k: int| 0 <= k < 11 implies #[trigger] name[k] == slot_byte(
            disk,
            slot,
            k,
        ) by {}
    }
    if is_named(disk, slot, name) {
        assert(own =~= name);
    }
}

impl FatVolume {
    /// The entry that a slot holds.
    pub open spec fn entry_at(self, disk: Disk, slot: DirectorySlot) -> EntryView {
        slot_entry(slot_bytes(disk, slot), self.fat_type(), slot.block.0, slot.offset)
    }

    /// The slots that a walk comes by lie within their blocks.
    proof fn lemma_walk_aligned(self, disk: Disk, start: Cursor, k: nat)
        ensures
            self.walked(disk, start, k) matches Some(w) ==> all_aligned(w.slots),
        decreases k,
    {
        if k > 0 {
            self.lemma_walk_aligned(disk, start, (k - 1) as nat);
        }
    }

    /// The slots of a directory lie within their blocks.
    pub proof fn lemma_made_of_aligned(
        self,
        disk: Disk,
        dir: ClusterId,
        slots: Seq<DirectorySlot>,
        end: Link,
    )
        requires
            self.is_made_of(disk, dir, slots, end),
        ensures
            all_aligned(slots),
    {
        let k = self.lemma_steps_of(disk, dir, slots, end);
        self.lemma_walk_aligned(disk, self.dir_start(dir), k);
    }
}

/// What someone has learned from these slots, one after the other, and whether that
/// was enough. A slot that holds nothing tells nothing.
pub open spec fn learned_from<W: Watcher>(
    volume: FatVolume,
    disk: Disk,
    slots: Seq<DirectorySlot>,
    state: W::State,
) -> (W::State, bool)
    decreases slots.len(),
{
    if slots.len() == 0 {
        (state, false)
    } else {
        let (learned, enough) = if is_live(disk, slots[0]) {
            W::shown(state, volume.entry_at(disk, slots[0]), slot_bytes(disk, slots[0]))
        } else {
            (state, false)
        };
        if enough {
            (learned, true)
        } else {
            learned_from::<W>(volume, disk, slots.skip(1), learned)
        }
    }
}

/// What slots tell, as far as they are looked at.
proof fn lemma_told_learned<W: Watcher>(
    volume: FatVolume,
    disk: Disk,
    slots: Seq<DirectorySlot>,
    n: int,
    state: W::State,
)
    requires
        whole_blocks(disk),
        all_aligned(slots),
        looked_at(disk, slots, n),
    ensures
        ({
            let told = volume.told::<W>(disk, slots, state);
            let (learned, enough) = learned_from::<W>(volume, disk, slots.take(n), state);
            told.state == learned && told.over == (enough || n < slots.len())
        }),
    decreases slots.len(),
{
    if slots.len() > 0 {
        let first = slots[0];
        let rest = slots.skip(1);
        lemma_slot_bytes(disk, first);
        assert(slots =~= seq![first] + rest);
        volume.lemma_told_concat::<W>(disk, seq![first], rest, state);
        assert(seq![first].drop_last() =~= Seq::empty());
        assert(volume.told::<W>(disk, seq![first].drop_last(), state).state == state);
        let one = volume.told::<W>(disk, seq![first], state);
        assert(one == volume.told_one::<W>(disk, first, state));
        if n == 0 {
            assert(slots.take(0) =~= Seq::empty());
        } else {
            assert(!is_unused(disk, slots[0]));
            assert(slots.take(n)[0] == first);
            assert(slots.take(n).skip(1) =~= rest.take(n - 1));
            if !one.over {
                assert forall|i: int| 0 <= i < rest.len() implies slot_aligned(
                    #[trigger] rest[i],
                ) by {
                    assert(rest[i] == slots[i + 1]);
                }
                assert forall|i: int| 0 <= i < n - 1 implies !is_unused(
                    disk,
                    #[trigger] rest[i],
                ) by {
                    assert(rest[i] == slots[i + 1]);
                }
                if n < slots.len() {
                    assert(rest[n - 1] == slots[n]);
                }
                lemma_told_learned::<W>(volume, disk, rest, n - 1, one.state);
            }
        }
    } else {
        assert(slots.take(n) =~= Seq::empty());
    }
}

/// Whoever looks through a directory is shown everything that its slots hold, be it an
/// entry or a piece of a long name, whatever its attributes are; one after the other,
/// until they have seen enough, and up to the first slot that was never used.
pub proof fn law_everything_is_shown<W: Watcher>(
    volume: FatVolume,
    disk: Disk,
    dir: ClusterId,
    slots: Seq<DirectorySlot>,
    end: Link,
    n: int,
    state: W::State,
)
    requires
        whole_blocks(disk),
        volume.is_made_of(disk, dir, slots, end),
        looked_at(disk, slots, n),
    ensures
        ({
            let (learned, enough) = learned_from::<W>(volume, disk, slots.take(n), state);
            volume.visited::<W>(disk, dir, state) == Some(
                Visit {
                    state: learned,
                    end: if enough || n < slots.len() {
                        Link::End
                    } else {
                        end
                    },
                },
            )
        }),
{
    volume.lemma_made_of_aligned(disk, dir, slots, end);
    law_visit_is_told::<W>(volume, disk, dir, slots, end, state);
    lemma_told_learned::<W>(volume, disk, slots, n, state);
}

/// What someone who looks for a short name learns from slots.
proof fn lemma_learned_short(
    volume: FatVolume,
    disk: Disk,
    slots: Seq<DirectorySlot>,
    name: Seq<u8>,
    i: int,
)
    requires
        whole_blocks(disk),
        all_aligned(slots),
        0 <= i <= slots.len(),
        forall|j: int|
            0 <= j < i && is_live(disk, #[trigger] slots[j]) ==> !is_named(disk, slots[j], name),
        i < slots.len() ==> is_live(disk, slots[i]) && is_named(disk, slots[i], name),
    ensures
        learned_from::<ShortNameFinder>(volume, disk, slots, Sought { name, found: None }) == if i
            < slots.len() {
            (Sought { name, found: Some(volume.entry_at(disk, slots[i])) }, true)
        } else {
            (Sought { name, found: None }, false)
        },
    decreases slots.len(),
{
    if slots.len() > 0 {
        lemma_named(disk, slots[0], name);
        if i > 0 {
            let rest = slots.skip(1);
            assert forall|j: int| 0 <= j < rest.len() implies slot_aligned(#[trigger] rest[j]) by {
                assert(rest[j] == slots[j + 1]);
            }
            assert forall|j: int|
                0 <= j < i - 1 && is_live(disk, #[trigger] rest[j]) implies !is_named(
                disk,
                rest[j],
                name,
            ) by {
                assert(rest[j] == slots[j + 1]);
            }
            if i < slots.len() {
                assert(rest[i - 1] == slots[i]);
            }
            assert(is_live(disk, slots[0]) ==> !is_named(disk, slots[0], name));
            lemma_learned_short(volume, disk, rest, name, i - 1);
        }
    }
}

/// Looking for a short name finds the first slot that holds something under these
/// eleven bytes, whatever its attributes are.
pub proof fn law_short_name_is_found(
    volume: FatVolume,
    disk: Disk,
    dir: ClusterId,
    slots: Seq<DirectorySlot>,
    end: Link,
    name: Seq<u8>,
    i: int,
)
    requires
        whole_blocks(disk),
        volume.is_made_of(disk, dir, slots, end),
        0 <= i < slots.len(),
        forall|j: int| 0 <= j <= i ==> !is_unused(disk, #[trigger] slots[j]),
        forall|j: int|
            0 <= j < i && is_live(disk, #[trigger] slots[j]) ==> !is_named(disk, slots[j], name),
        is_live(disk, slots[i]),
        is_named(disk, slots[i], name),
    ensures
        volume.short_name_lookup(disk, dir, name) == Some(
            Visit {
                state: Sought { name, found: Some(volume.entry_at(disk, slots[i])) },
                end: Link::End,
            },
        ),
{
    let n = lemma_looked_at(disk, slots);
    if n <= i {
        assert(is_unused(disk, slots[n]));
    }
    volume.lemma_made_of_aligned(disk, dir, slots, end);
    law_everything_is_shown::<ShortNameFinder>(
        volume,
        disk,
        dir,
        slots,
        end,
        n,
        Sought { name, found: None },
    );
    let seen = slots.take(n);
    assert forall|j: int| 0 <= j < i && is_live(disk, #[trigger] seen[j]) implies !is_named(
        disk,
        seen[j],
        name,
    ) by {
        assert(seen[j] == slots[j]);
    }
    assert forall|j: int| 0 <= j < seen.len() implies slot_aligned(#[trigger] seen[j]) by {
        assert(seen[j] == slots[j]);
    }
    lemma_learned_short(volume, disk, seen, name, i);
}

/// How many slots a search looks at.
pub proof fn lemma_looked_at(disk: Disk, slots: Seq<DirectorySlot>) -> (n: int)
    ensures
        looked_at(disk, slots, n),
    decreases slots.len(),
{
    if slots.len() == 0 {
        0
    } else {
        let front = slots.drop_last();
        let n = lemma_looked_at(disk, front);
        if n < front.len() {
            assert(slots[n] == front[n]);
            assert forall|i: int| 0 <= i < n implies !is_unused(disk, #[trigger] slots[i]) by {
                assert(front[i] == slots[i]);
            }
            n
        } else {
            assert forall|i: int| 0 <= i < front.len() implies !is_unused(
                disk,
                #[trigger] slots[i],
            ) by {
                assert(front[i] == slots[i]);
            }
            if is_unused(disk, slots.last()) {
                slots.len() - 1
            } else {
                slots.len() as int
            }
        }
    }
}

/// Looking for a short name finds nothing where no slot that is looked at holds
/// anything under these eleven bytes.
pub proof fn law_short_name_is_missing(
    volume: FatVolume,
    disk: Disk,
    dir: ClusterId,
    slots: Seq<DirectorySlot>,
    end: Link,
    n: int,
    name: Seq<u8>,
)
    requires
        whole_blocks(disk),
        volume.is_made_of(disk, dir, slots, end),
        looked_at(disk, slots, n),
        forall|j: int|
            0 <= j < n && is_live(disk, #[trigger] slots[j]) ==> !is_named(disk, slots[j], name),
    ensures
        volume.short_name_lookup(disk, dir, name) == Some(
            Visit {
                state: Sought { name, found: None },
                end: if n < slots.len() {
                    Link::End
                } else {
                    end
                },
            },
        ),
{
    volume.lemma_made_of_aligned(disk, dir, slots, end);
    law_everything_is_shown::<ShortNameFinder>(
        volume,
        disk,
        dir,
        slots,
        end,
        n,
        Sought { name, found: None },
    );
    let seen = slots.take(n);
    assert forall|j: int| 0 <= j < n && is_live(disk, #[trigger] seen[j]) implies !is_named(
        disk,
        seen[j],
        name,
    ) by {
        assert(seen[j] == slots[j]);
    }
    assert forall|j: int| 0 <= j < seen.len() implies slot_aligned(#[trigger] seen[j]) by {
        assert(seen[j] == slots[j]);
    }
    lemma_learned_short(volume, disk, seen, name, n);
}

/// Where there is a slot that holds something under a name, there is a first one.
proof fn lemma_first_named(disk: Disk, slots: Seq<DirectorySlot>, name: Seq<u8>, i: int) -> (first:
    int)
    requires
        0 <= i < slots.len(),
        is_live(disk, slots[i]),
        is_named(disk, slots[i], name),
    ensures
        0 <= first <= i,
        is_live(disk, slots[first]),
        is_named(disk, slots[first], name),
        forall|j: int|
            0 <= j < first && is_live(disk, #[trigger] slots[j]) ==> !is_named(
                disk,
                slots[j],
                name,
            ),
    decreases i,
{
    if exists|j: int|
        0 <= j < i && is_live(disk, #[trigger] slots[j]) && is_named(disk, slots[j], name) {
        let j = choose|j: int|
            0 <= j < i && is_live(disk, #[trigger] slots[j]) && is_named(disk, slots[j], name);
        lemma_first_named(disk, slots, name, j)
    } else {
        i
    }
}

/// A directory has one namespace: where some slot that is looked at holds something
/// under a short name, that name is taken, whatever the attributes of the slot are,
/// and whether or not it has a long name as well. So is every way to write that name,
/// in upper case or in lower case.
pub proof fn law_short_names_are_taken(
    volume: FatVolume,
    disk: Disk,
    dir: ClusterId,
    slots: Seq<DirectorySlot>,
    name: Seq<char>,
    i: int,
)
    requires
        whole_blocks(disk),
        volume.is_made_of(disk, dir, slots, Link::End),
        0 <= i < slots.len(),
        forall|j: int| 0 <= j <= i ==> !is_unused(disk, #[trigger] slots[j]),
        is_live(disk, slots[i]),
        short_name_of(name) matches Ok(bytes) && is_named(disk, slots[i], bytes),
    ensures
        volume.name_taken(disk, dir, name) == Some((true, Link::End)),
{
    let bytes = short_name_of(name)->Ok_0;
    let n = lemma_looked_at(disk, slots);
    law_everything_is_shown::<LongNameFinder>(
        volume,
        disk,
        dir,
        slots,
        Link::End,
        n,
        LongSought::start(name, true),
    );
    let first = lemma_first_named(disk, slots, bytes, i);
    law_short_name_is_found(volume, disk, dir, slots, Link::End, bytes, first);
}

/// A name is taken by nothing but an entry that answers to it: where no slot that is
/// looked at has it for a short name, and it is not found as a long name, in upper
/// case or in lower case, it is not taken.
pub proof fn law_other_names_are_not_taken(
    volume: FatVolume,
    disk: Disk,
    dir: ClusterId,
    slots: Seq<DirectorySlot>,
    n: int,
    name: Seq<char>,
)
    requires
        whole_blocks(disk),
        volume.is_made_of(disk, dir, slots, Link::End),
        looked_at(disk, slots, n),
        short_name_of(name) matches Ok(bytes) ==> forall|j: int|
            0 <= j < n && is_live(disk, #[trigger] slots[j]) ==> !is_named(disk, slots[j], bytes),
        volume.long_name_lookup(disk, dir, name, true) matches Some(visit)
            && visit.state.found is None,
    ensures
        volume.name_taken(disk, dir, name) == Some((false, Link::End)),
{
    law_everything_is_shown::<LongNameFinder>(
        volume,
        disk,
        dir,
        slots,
        Link::End,
        n,
        LongSought::start(name, true),
    );
    if let Ok(bytes) = short_name_of(name) {
        law_short_name_is_missing(volume, disk, dir, slots, Link::End, n, bytes);
    }
}

/// A name that is found as a long name, in upper case or in lower case, is taken.
pub proof fn law_long_names_are_taken(
    volume: FatVolume,
    disk: Disk,
    dir: ClusterId,
    slots: Seq<DirectorySlot>,
    name: Seq<char>,
)
    requires
        whole_blocks(disk),
        volume.is_made_of(disk, dir, slots, Link::End),
        volume.long_name_lookup(disk, dir, name, true) matches Some(visit)
            && visit.state.found is Some,
    ensures
        volume.name_taken(disk, dir, name) == Some((true, Link::End)),
{
    let n = lemma_looked_at(disk, slots);
    law_everything_is_shown::<LongNameFinder>(
        volume,
        disk,
        dir,
        slots,
        Link::End,
        n,
        LongSought::start(name, true),
    );
}

/// Where the chain of a directory is broken, and no slot in front of that was never
/// used, it is not known whether a name is taken that was not found there.
pub proof fn law_broken_directories_do_not_answer<E>(
    volume: FatVolume,
    disk: Disk,
    dir: ClusterId,
    slots: Seq<DirectorySlot>,
    end: Link,
    name: Seq<char>,
)
    requires
        whole_blocks(disk),
        volume.is_made_of(disk, dir, slots, end),
        looked_at(disk, slots, slots.len() as int),
        end is Bad || end is Free,
        volume.long_name_lookup(disk, dir, name, true) matches Some(visit)
            && visit.state.found is None,
    ensures
        volume.name_taken(disk, dir, name) is Some,
        ({
            let result = decided::<E>(volume.name_taken(disk, dir, name)->0);
            &&& result is Err
            &&& end is Bad ==> result->Err_0 is BadCluster
            &&& end is Free ==> result->Err_0 is UnterminatedFatChain
        }),
{
    let start = LongSought::start(name, true);
    let n = slots.len() as int;
    law_everything_is_shown::<LongNameFinder>(volume, disk, dir, slots, end, n, start);
    lemma_enough_is_found(volume, disk, slots.take(n), start);
}

/// Someone who looks for a long name has seen enough just where it was found.
proof fn lemma_enough_is_found(
    volume: FatVolume,
    disk: Disk,
    slots: Seq<DirectorySlot>,
    state: LongSought,
)
    requires
        state.found is None,
    ensures
        ({
            let (learned, enough) = learned_from::<LongNameFinder>(volume, disk, slots, state);
            learned.found is Some <==> enough
        }),
    decreases slots.len(),
{
    if slots.len() > 0 {
        let (learned, enough) = if is_live(disk, slots[0]) {
            LongNameFinder::shown(
                state,
                volume.entry_at(disk, slots[0]),
                slot_bytes(disk, slots[0]),
            )
        } else {
            (state, false)
        };
        if !enough {
            lemma_enough_is_found(volume, disk, slots.skip(1), learned);
        }
    }
}

/// An alias that was found is not the short name of anything in the directory: no slot
/// that is looked at holds something under its eleven bytes.
pub proof fn law_alias_is_new(
    volume: FatVolume,
    disk: Disk,
    dir: ClusterId,
    slots: Seq<DirectorySlot>,
    long_name: Seq<char>,
    number: nat,
    i: int,
)
    requires
        whole_blocks(disk),
        volume.is_made_of(disk, dir, slots, Link::End),
        volume.alias_search(disk, dir, long_name, 0) == Some(AliasOutcome::Free(number)),
        0 <= i < slots.len(),
        forall|j: int| 0 <= j <= i ==> !is_unused(disk, #[trigger] slots[j]),
        is_live(disk, slots[i]),
    ensures
        !is_named(disk, slots[i], candidate_name(long_name, number)),
{
    law_alias_is_free(volume, disk, dir, long_name, 0);
    lemma_candidate(long_name, number);
    if is_named(disk, slots[i], candidate_name(long_name, number)) {
        law_short_names_are_taken(volume, disk, dir, slots, candidate(long_name, number), i);
    }
}

/// An entry of a directory, and the pieces of long names that stand between it and
/// the entry before it.
pub struct Row {
    /// Where the entry stands.
    pub slot: DirectorySlot,
    /// The pieces, in the order in which they stand.
    pub pieces: Seq<LfnView>,
}

/// The entries among these slots, in order, where `pieces` were met before them. A
/// slot whose contents were deleted does not count.
pub open spec fn rows(disk: Disk, slots: Seq<DirectorySlot>, pieces: Seq<LfnView>) -> Seq<Row>
    decreases slots.len(),
{
    if slots.len() == 0 {
        Seq::empty()
    } else if is_entry(disk, slots[0]) {
        seq![Row { slot: slots[0], pieces }] + rows(disk, slots.skip(1), Seq::empty())
    } else if is_live(disk, slots[0]) {
        rows(disk, slots.skip(1), pieces.push(slot_lfn(slot_bytes(disk, slots[0]))))
    } else {
        rows(disk, slots.skip(1), pieces)
    }
}

/// There is one row for each slot that holds an entry, in the order of the slots,
/// whatever the attributes of the entry are.
pub proof fn law_each_entry_has_a_row(
    disk: Disk,
    slots: Seq<DirectorySlot>,
    pieces: Seq<LfnView>,
)
    ensures
        rows(disk, slots, pieces).map_values(|row: Row| row.slot) == slots.filter(
            |slot: DirectorySlot| is_entry(disk, slot),
        ),
    decreases slots.len(),
{
    reveal(Seq::filter);
    let picks = |slot: DirectorySlot| is_entry(disk, slot);
    let place = |row: Row| row.slot;
    if slots.len() > 0 {
        let first = slots[0];
        let rest = slots.skip(1);
        assert(slots =~= seq![first] + rest);
        Seq::filter_distributes_over_add(seq![first], rest, picks);
        assert(seq![first].drop_last() =~= Seq::empty());
        assert(seq![first].drop_last().filter(picks) =~= Seq::empty());
        if is_entry(disk, first) {
            law_each_entry_has_a_row(disk, rest, Seq::empty());
            let row = Row { slot: first, pieces };
            assert((seq![row] + rows(disk, rest, Seq::empty())).map_values(place) =~= seq![first]
                + rows(disk, rest, Seq::empty()).map_values(place));
            assert(seq![first].filter(picks) =~= seq![first]);
        } else if is_live(disk, first) {
            law_each_entry_has_a_row(
                disk,
                rest,
                pieces.push(slot_lfn(slot_bytes(disk, first))),
            );
            assert(seq![first].filter(picks) =~= Seq::empty());
            assert(Seq::<DirectorySlot>::empty() + rest.filter(picks) =~= rest.filter(picks));
        } else {
            law_each_entry_has_a_row(disk, rest, pieces);
            assert(seq![first].filter(picks) =~= Seq::empty());
            assert(Seq::<DirectorySlot>::empty() + rest.filter(picks) =~= rest.filter(picks));
        }
    } else {
        assert(rows(disk, slots, pieces).map_values(place) =~= slots.filter(picks));
    }
}

/// Does the entry of a row have a long name that counts as `sought`?
pub open spec fn row_bears(disk: Disk, row: Row, sought: Seq<char>, fold_case: bool) -> bool {
    bears_name(row.pieces, slot_bytes(disk, row.slot).take(11), sought, fold_case)
}

/// What someone who looks for a long name learns from slots.
proof fn lemma_learned_long(
    volume: FatVolume,
    disk: Disk,
    slots: Seq<DirectorySlot>,
    state: LongSought,
    i: int,
)
    requires
        whole_blocks(disk),
        all_aligned(slots),
        state.found is None,
        ({
            let all = rows(disk, slots, state.pieces);
            &&& 0 <= i <= all.len()
            &&& forall|j: int|
                0 <= j < i ==> !row_bears(disk, #[trigger] all[j], state.name, state.fold_case)
            &&& i < all.len() ==> row_bears(disk, all[i], state.name, state.fold_case)
        }),
    ensures
        ({
            let all = rows(disk, slots, state.pieces);
            let (learned, enough) = learned_from::<LongNameFinder>(volume, disk, slots, state);
            &&& enough == (i < all.len())
            &&& learned.found == if i < all.len() {
                Some(volume.entry_at(disk, all[i].slot))
            } else {
                None
            }
        }),
    decreases slots.len(),
{
    let all = rows(disk, slots, state.pieces);
    if slots.len() > 0 {
        let rest = slots.skip(1);
        lemma_slot_bytes(disk, slots[0]);
        assert forall|j: int| 0 <= j < rest.len() implies slot_aligned(#[trigger] rest[j]) by {
            assert(rest[j] == slots[j + 1]);
        }
        if is_entry(disk, slots[0]) {
            assert(all[0] == (Row { slot: slots[0], pieces: state.pieces }));
            if i > 0 {
                assert(!row_bears(disk, all[0], state.name, state.fold_case));
                let later = rows(disk, rest, Seq::empty());
                assert forall|j: int| 0 <= j < later.len() implies #[trigger] later[j] == all[j
                    + 1] by {}
                assert forall|j: int| 0 <= j < i - 1 implies !row_bears(
                    disk,
                    #[trigger] later[j],
                    state.name,
                    state.fold_case,
                ) by {
                    assert(later[j] == all[j + 1]);
                }
                lemma_learned_long(
                    volume,
                    disk,
                    rest,
                    LongSought { pieces: Seq::empty(), ..state },
                    i - 1,
                );
            }
        } else if is_live(disk, slots[0]) {
            let piece = slot_lfn(slot_bytes(disk, slots[0]));
            lemma_learned_long(
                volume,
                disk,
                rest,
                LongSought { pieces: state.pieces.push(piece), ..state },
                i,
            );
        } else {
            lemma_learned_long(volume, disk, rest, state, i);
        }
    }
}

/// Looking for a long name finds the first entry that has it, whatever the attributes
/// of that entry are, and finds nothing where there is none.
pub proof fn law_first_bearer_is_found(
    volume: FatVolume,
    disk: Disk,
    dir: ClusterId,
    slots: Seq<DirectorySlot>,
    end: Link,
    n: int,
    sought: Seq<char>,
    fold_case: bool,
    i: int,
)
    requires
        whole_blocks(disk),
        volume.is_made_of(disk, dir, slots, end),
        looked_at(disk, slots, n),
        ({
            let all = rows(disk, slots.take(n), Seq::empty());
            &&& 0 <= i <= all.len()
            &&& forall|j: int|
                0 <= j < i ==> !row_bears(disk, #[trigger] all[j], sought, fold_case)
            &&& i < all.len() ==> row_bears(disk, all[i], sought, fold_case)
        }),
    ensures
        ({
            let all = rows(disk, slots.take(n), Seq::empty());
            &&& volume.long_name_lookup(disk, dir, sought, fold_case) matches Some(visit)
            &&& visit.state.found == if i < all.len() {
                Some(volume.entry_at(disk, all[i].slot))
            } else {
                None
            }
            &&& visit.end == if i < all.len() || n < slots.len() {
                Link::End
            } else {
                end
            }
        }),
{
    let start = LongSought::start(sought, fold_case);
    volume.lemma_made_of_aligned(disk, dir, slots, end);
    law_everything_is_shown::<LongNameFinder>(volume, disk, dir, slots, end, n, start);
    let seen = slots.take(n);
    assert forall|j: int| 0 <= j < seen.len() implies slot_aligned(#[trigger] seen[j]) by {
        assert(seen[j] == slots[j]);
    }
    lemma_learned_long(volume, disk, seen, start, i);
}

/// How far a listing is with the pieces of a long name, and the text that they make
/// up, once these were met.
pub open spec fn gathered_from(pieces: Seq<LfnView>, capacity: nat) -> (Gather, LfnText)
    decreases pieces.len(),
{
    if pieces.len() == 0 {
        (Gather::Waiting, LfnText::empty(capacity))
    } else {
        let (gather, text) = gathered_from(pieces.drop_last(), capacity);
        gathered(gather, text, pieces.last())
    }
}

/// The long name under which a listing shows the entry of a row, if any.
pub open spec fn listed_name(disk: Disk, row: Row, capacity: nat) -> Option<Seq<char>> {
    let (gather, text) = gathered_from(row.pieces, capacity);
    long_name_for(gather, text, slot_bytes(disk, row.slot).take(11))
}

/// What a visitor has learned who was shown the entries of these rows, one after the
/// other, and whether that was enough.
pub open spec fn shown_rows<V: LongNameVisitor>(
    volume: FatVolume,
    disk: Disk,
    all: Seq<Row>,
    capacity: nat,
    seen: V::State,
) -> (V::State, bool)
    decreases all.len(),
{
    if all.len() == 0 {
        (seen, false)
    } else {
        let (learned, enough) = V::named(
            seen,
            volume.entry_at(disk, all[0].slot),
            listed_name(disk, all[0], capacity),
        );
        if enough {
            (learned, true)
        } else {
            shown_rows::<V>(volume, disk, all.skip(1), capacity, learned)
        }
    }
}

/// What a listing shows of slots.
proof fn lemma_learned_listing<V: LongNameVisitor>(
    volume: FatVolume,
    disk: Disk,
    slots: Seq<DirectorySlot>,
    pieces: Seq<LfnView>,
    capacity: nat,
    state: Listing<V::State>,
)
    requires
        whole_blocks(disk),
        all_aligned(slots),
        state.buffer.capacity == capacity,
        ({
            let (gather, text) = gathered_from(pieces, capacity);
            state.gather == gather && (gather !is Waiting ==> state.buffer == text)
        }),
    ensures
        ({
            let (learned, enough) = learned_from::<LongNames<V>>(volume, disk, slots, state);
            (learned.seen, enough) == shown_rows::<V>(
                volume,
                disk,
                rows(disk, slots, pieces),
                capacity,
                state.seen,
            )
        }),
    decreases slots.len(),
{
    lemma_gathered_capacity(pieces, capacity);
    if slots.len() > 0 {
        let rest = slots.skip(1);
        lemma_slot_bytes(disk, slots[0]);
        assert forall|j: int| 0 <= j < rest.len() implies slot_aligned(#[trigger] rest[j]) by {
            assert(rest[j] == slots[j + 1]);
        }
        if is_entry(disk, slots[0]) {
            let later = rows(disk, rest, Seq::empty());
            let row = Row { slot: slots[0], pieces };
            assert((seq![row] + later).skip(1) =~= later);
            assert((seq![row] + later)[0] == row);
            let (learned, enough) = V::named(
                state.seen,
                volume.entry_at(disk, slots[0]),
                listed_name(disk, row, capacity),
            );
            if !enough {
                lemma_learned_listing::<V>(
                    volume,
                    disk,
                    rest,
                    Seq::empty(),
                    capacity,
                    Listing { gather: Gather::Waiting, seen: learned, ..state },
                );
            }
        } else if is_live(disk, slots[0]) {
            let piece = slot_lfn(slot_bytes(disk, slots[0]));
            assert(pieces.push(piece).drop_last() =~= pieces);
            let (gather, buffer) = gathered(state.gather, state.buffer, piece);
            lemma_learned_listing::<V>(
                volume,
                disk,
                rest,
                pieces.push(piece),
                capacity,
                Listing { gather, buffer, ..state },
            );
        } else {
            lemma_learned_listing::<V>(volume, disk, rest, pieces, capacity, state);
        }
    }
}

/// Gathering does not change how much room there is.
proof fn lemma_gathered_capacity(pieces: Seq<LfnView>, capacity: nat)
    ensures
        gathered_from(pieces, capacity).1.capacity == capacity,
    decreases pieces.len(),
{
    if pieces.len() > 0 {
        lemma_gathered_capacity(pieces.drop_last(), capacity);
    }
}

/// A listing shows, in the order of the slots, each slot that is looked at and holds
/// an entry, once: whatever its attributes are, and whether or not it has a long name.
/// It ends where the visitor has had enough, at the first slot that was never used, or
/// with the directory.
pub proof fn law_listing_shows_each_entry_once<V: LongNameVisitor>(
    volume: FatVolume,
    disk: Disk,
    dir: ClusterId,
    slots: Seq<DirectorySlot>,
    end: Link,
    n: int,
    first: Listing<V::State>,
)
    requires
        whole_blocks(disk),
        volume.is_made_of(disk, dir, slots, end),
        looked_at(disk, slots, n),
        first.gather is Waiting,
    ensures
        ({
            let all = rows(disk, slots.take(n), Seq::empty());
            let (seen, enough) = shown_rows::<V>(
                volume,
                disk,
                all,
                first.buffer.capacity,
                first.seen,
            );
            &&& all.map_values(|row: Row| row.slot) == slots.take(n).filter(
                |slot: DirectorySlot| is_entry(disk, slot),
            )
            &&& volume.visited::<LongNames<V>>(disk, dir, first) matches Some(visit)
            &&& visit.state.seen == seen
            &&& visit.end == if enough || n < slots.len() {
                Link::End
            } else {
                end
            }
        }),
{
    let seen = slots.take(n);
    volume.lemma_made_of_aligned(disk, dir, slots, end);
    law_everything_is_shown::<LongNames<V>>(volume, disk, dir, slots, end, n, first);
    assert forall|j: int| 0 <= j < seen.len() implies slot_aligned(#[trigger] seen[j]) by {
        assert(seen[j] == slots[j]);
    }
    lemma_learned_listing::<V>(volume, disk, seen, Seq::empty(), first.buffer.capacity, first);
    law_each_entry_has_a_row(disk, seen, Seq::empty());
}

/// The pieces that these slots hold.
pub open spec fn pieces_in(disk: Disk, slots: Seq<DirectorySlot>) -> Seq<LfnView> {
    slots.filter(|slot: DirectorySlot| is_live(disk, slot)).map_values(
        |slot: DirectorySlot| slot_lfn(slot_bytes(disk, slot)),
    )
}

/// The rows of slots that end with an entry, and of those behind them.
proof fn lemma_rows_behind_an_entry(
    disk: Disk,
    front: Seq<DirectorySlot>,
    back: Seq<DirectorySlot>,
    pieces: Seq<LfnView>,
)
    requires
        front.len() > 0,
        is_entry(disk, front.last()),
    ensures
        rows(disk, front + back, pieces) == rows(disk, front, pieces) + rows(
            disk,
            back,
            Seq::empty(),
        ),
    decreases front.len(),
{
    let rest = front.skip(1);
    assert((front + back).skip(1) =~= rest + back);
    assert((front + back)[0] == front[0]);
    if front.len() == 1 {
        assert(rest + back =~= back);
        assert(rows(disk, rest, Seq::empty()) =~= Seq::empty());
    } else {
        assert(rest.last() == front.last());
        if is_entry(disk, front[0]) {
            lemma_rows_behind_an_entry(disk, rest, back, Seq::empty());
        } else if is_live(disk, front[0]) {
            let piece = slot_lfn(slot_bytes(disk, front[0]));
            lemma_rows_behind_an_entry(disk, rest, back, pieces.push(piece));
        } else {
            lemma_rows_behind_an_entry(disk, rest, back, pieces);
        }
    }
    assert(rows(disk, front + back, pieces) =~= rows(disk, front, pieces) + rows(
        disk,
        back,
        Seq::empty(),
    ));
}

/// The first row of slots that begin with no entry.
proof fn lemma_row_behind_pieces(
    disk: Disk,
    run: Seq<DirectorySlot>,
    slot: DirectorySlot,
    back: Seq<DirectorySlot>,
    pieces: Seq<LfnView>,
)
    requires
        forall|i: int| 0 <= i < run.len() ==> !is_entry(disk, #[trigger] run[i]),
        is_entry(disk, slot),
    ensures
        rows(disk, run + seq![slot] + back, pieces) == seq![
            Row { slot, pieces: pieces + pieces_in(disk, run) },
        ] + rows(disk, back, Seq::empty()),
    decreases run.len(),
{
    reveal(Seq::filter);
    let all = run + seq![slot] + back;
    let live = |slot: DirectorySlot| is_live(disk, slot);
    let read = |slot: DirectorySlot| slot_lfn(slot_bytes(disk, slot));
    if run.len() == 0 {
        assert(all[0] == slot);
        assert(all.skip(1) =~= back);
        assert(pieces + pieces_in(disk, run) =~= pieces);
    } else {
        let first = run[0];
        let rest = run.skip(1);
        assert(all[0] == first);
        assert(all.skip(1) =~= rest + seq![slot] + back);
        assert(run =~= seq![first] + rest);
        assert forall|i: int| 0 <= i < rest.len() implies !is_entry(disk, #[trigger] rest[i]) by {
            assert(rest[i] == run[i + 1]);
        }
        Seq::filter_distributes_over_add(seq![first], rest, live);
        assert(seq![first].drop_last() =~= Seq::empty());
        assert(seq![first].drop_last().filter(live) =~= Seq::empty());
        assert(!is_entry(disk, run[0]));
        if is_live(disk, first) {
            assert(seq![first].filter(live) =~= seq![first]);
            lemma_row_behind_pieces(disk, rest, slot, back, pieces.push(read(first)));
            assert(pieces_in(disk, run) =~= seq![read(first)] + pieces_in(disk, rest));
            assert(pieces.push(read(first)) + pieces_in(disk, rest) =~= pieces + pieces_in(
                disk,
                run,
            ));
        } else {
            assert(seq![first].filter(live) =~= Seq::empty());
            lemma_row_behind_pieces(disk, rest, slot, back, pieces);
            assert(pieces_in(disk, run) =~= pieces_in(disk, rest));
        }
    }
}

/// The pieces that count for an entry are those that stand between it and the entry
/// before it. A slot among them whose contents were deleted does not count.
pub proof fn law_pieces_stand_in_front_of_their_entry(
    disk: Disk,
    front: Seq<DirectorySlot>,
    run: Seq<DirectorySlot>,
    slot: DirectorySlot,
    back: Seq<DirectorySlot>,
)
    requires
        front.len() > 0 ==> is_entry(disk, front.last()),
        forall|i: int| 0 <= i < run.len() ==> !is_entry(disk, #[trigger] run[i]),
        is_entry(disk, slot),
    ensures
        ({
            let before = rows(disk, front, Seq::empty());
            let behind = rows(disk, back, Seq::empty());
            let row = Row { slot, pieces: pieces_in(disk, run) };
            rows(disk, front + (run + seq![slot] + back), Seq::empty()) == before + (seq![row]
                + behind)
        }),
{
    let rest = run + seq![slot] + back;
    lemma_row_behind_pieces(disk, run, slot, back, Seq::empty());
    assert(Seq::empty() + pieces_in(disk, run) =~= pieces_in(disk, run));
    if front.len() > 0 {
        lemma_rows_behind_an_entry(disk, front, rest, Seq::empty());
    } else {
        assert(front + rest =~= rest);
        assert(rows(disk, front, Seq::empty()) + rows(disk, rest, Seq::empty()) =~= rows(
            disk,
            rest,
            Seq::empty(),
        ));
    }
}

/// Are these pieces of a name in order, of which `rest` are yet to come: the first has
/// the mark of a beginning, and they are numbered downwards, from twenty at most? It
/// is the first one that gives the checksum.
pub open spec fn is_in_order(chain: Seq<LfnView>, rest: int, csum: u8) -> bool {
    &&& chain.len() > 0
    &&& chain.len() + rest <= 20
    &&& chain[0].csum == csum
    &&& forall|i: int|
        0 <= i < chain.len() ==> {
            &&& (#[trigger] chain[i]).is_start == (i == 0)
            &&& chain[i].sequence == chain.len() - i + rest
        }
}

/// What a listing has gathered are pieces in order.
proof fn lemma_gathered_is_in_order(pieces: Seq<LfnView>, capacity: nat) -> (n: int)
    ensures
        match gathered_from(pieces, capacity).0 {
            Gather::Waiting => true,
            Gather::Remaining { csum, next } => {
                &&& 0 <= n < pieces.len()
                &&& next > 0
                &&& is_in_order(pieces.skip(n), next as int, csum)
            },
            Gather::Complete { csum } => {
                &&& 0 <= n < pieces.len()
                &&& is_in_order(pieces.skip(n), 0, csum)
            },
        },
    decreases pieces.len(),
{
    if pieces.len() == 0 {
        0
    } else if pieces.last().is_start {
        let chain = pieces.skip(pieces.len() - 1);
        assert(chain =~= seq![pieces.last()]);
        pieces.len() - 1
    } else {
        let before = pieces.drop_last();
        let n = lemma_gathered_is_in_order(before, capacity);
        if gathered_from(pieces, capacity).0 !is Waiting {
            let chain = pieces.skip(n);
            assert(chain.drop_last() =~= before.skip(n));
            assert(chain.last() == pieces.last());
            assert forall|i: int| 0 <= i < chain.len() - 1 implies #[trigger] chain[i]
                == before.skip(n)[i] by {}
        }
        n
    }
}

/// A listing gathers pieces in order.
proof fn lemma_in_order_is_gathered(
    front: Seq<LfnView>,
    chain: Seq<LfnView>,
    rest: int,
    csum: u8,
    capacity: nat,
)
    requires
        rest >= 0,
        is_in_order(chain, rest, csum),
    ensures
        gathered_from(front + chain, capacity).0 == if rest == 0 {
            Gather::Complete { csum }
        } else {
            Gather::Remaining { csum, next: rest as u8 }
        },
    decreases chain.len(),
{
    let before = chain.drop_last();
    let last = chain[chain.len() - 1];
    assert((front + chain).last() == last);
    assert((front + chain).drop_last() =~= front + before);
    assert(chain[0].sequence == chain.len() + rest);
    if chain.len() > 1 {
        assert forall|i: int| 0 <= i < before.len() implies {
            &&& (#[trigger] before[i]).is_start == (i == 0)
            &&& before[i].sequence == before.len() - i + rest + 1
        } by {
            assert(before[i] == chain[i]);
        }
        lemma_in_order_is_gathered(front, before, rest + 1, csum, capacity);
    }
}

/// A listing shows an entry under a long name just where all the pieces of that name
/// stand in front of it, in order, and their checksum is that of its short name.
pub proof fn law_listed_names_are_whole(disk: Disk, row: Row, capacity: nat)
    ensures
        listed_name(disk, row, capacity) is Some <==> exists|n: int|
            0 <= n < row.pieces.len() && is_in_order(
                #[trigger] row.pieces.skip(n),
                0,
                csum_of(slot_bytes(disk, row.slot).take(11)),
            ),
{
    let csum = csum_of(slot_bytes(disk, row.slot).take(11));
    let m = lemma_gathered_is_in_order(row.pieces, capacity);
    if listed_name(disk, row, capacity) is Some {
        assert(is_in_order(row.pieces.skip(m), 0, csum));
    }
    if exists|n: int|
        0 <= n < row.pieces.len() && is_in_order(#[trigger] row.pieces.skip(n), 0, csum) {
        let n = choose|n: int|
            0 <= n < row.pieces.len() && is_in_order(#[trigger] row.pieces.skip(n), 0, csum);
        lemma_in_order_is_gathered(row.pieces.take(n), row.pieces.skip(n), 0, csum, capacity);
        assert(row.pieces.take(n) + row.pieces.skip(n) =~= row.pieces);
    }
}

/// A long name that a listing shows fits into its buffer.
pub proof fn law_listed_names_fit(disk: Disk, row: Row, capacity: nat)
    ensures
        listed_name(disk, row, capacity) matches Some(name) ==> utf8_length(name) <= capacity,
{
    lemma_gathered_fits(row.pieces, capacity);
}

/// What is gathered fits.
proof fn lemma_gathered_fits(pieces: Seq<LfnView>, capacity: nat)
    ensures
        ({
            let text = gathered_from(pieces, capacity).1;
            utf8_length(text.text) <= capacity && text.capacity == capacity
        }),
    decreases pieces.len(),
{
    if pieces.len() > 0 {
        lemma_gathered_fits(pieces.drop_last(), capacity);
    }
}

/// Do these pieces spell out `units`? The one that comes first has the mark of a
/// beginning, they are numbered downwards to one, and all of them have this checksum.
/// The one numbered one holds the first thirteen units, and so on; the one that comes
/// first holds the rest, with a zero behind them and then nothing but ones, as far as
/// there is room.
pub open spec fn spells_out(chain: Seq<LfnView>, csum: u8, units: Seq<u16>) -> bool {
    let m = chain.len();
    let rest = units.len() - 13 * (m - 1);
    &&& m > 0
    &&& 0 < rest <= 13
    &&& forall|i: int|
        0 <= i < m ==> {
            &&& (#[trigger] chain[i]).is_start == (i == 0)
            &&& chain[i].sequence == m - i
            &&& chain[i].csum == csum
            &&& chain[i].units.len() == 13
        }
    &&& forall|i: int, k: int|
        0 < i < m && 0 <= k < 13 ==> #[trigger] chain[i].units[k] == units[13 * (m - 1 - i) + k]
    &&& forall|k: int|
        0 <= k < 13 ==> #[trigger] chain[0].units[k] == if k < rest {
            units[13 * (m - 1) + k]
        } else if k == rest {
            0
        } else {
            0xFFFF
        }
}

/// Pieces that spell out some units hold those units.
proof fn lemma_spelled_units(chain: Seq<LfnView>, csum: u8, units: Seq<u16>, j: int)
    requires
        spells_out(chain, csum, units),
        units.last() != 0 && units.last() != 0xFFFF,
        0 < j <= chain.len(),
    ensures
        chain_units(chain.take(j)) == units.skip(13 * (chain.len() - j)),
    decreases j,
{
    let m = chain.len();
    let part = chain.take(j);
    if j == 1 {
        let rest = units.skip(13 * (m - 1));
        assert(part[0] == chain[0]);
        assert(rest.last() == units.last());
        lemma_padding_is_trimmed(chain[0].units, rest);
    } else {
        lemma_spelled_units(chain, csum, units, j - 1);
        assert(part.drop_last() =~= chain.take(j - 1));
        assert(part.last() == chain[j - 1]);
        assert(chain[j - 1].units.len() == 13);
        assert forall|k: int| 0 <= k < 13 implies chain[j - 1].units[k] == #[trigger] units[13 * (m
            - j) + k] by {
            assert(chain[j - 1].units[k] == units[13 * (m - 1 - (j - 1)) + k]);
        }
        assert(chain[j - 1].units + units.skip(13 * (m - j + 1)) =~= units.skip(13 * (m - j)));
    }
}

/// The padding behind the end of a name is taken off, and nothing else.
proof fn lemma_padding_is_trimmed(row: Seq<u16>, rest: Seq<u16>)
    requires
        row.len() == 13,
        0 < rest.len() <= 13,
        rest.last() != 0 && rest.last() != 0xFFFF,
        forall|k: int|
            0 <= k < 13 ==> #[trigger] row[k] == if k < rest.len() {
                rest[k]
            } else if k == rest.len() {
                0
            } else {
                0xFFFF
            },
    ensures
        trimmed(row) == rest,
{
    let n: int = if rest.len() == 13 {
        13
    } else {
        rest.len() as int + 1
    };
    let last = rest.len() - 1;
    assert(row[last] == rest[last]);
    lemma_ones_are_trimmed(row, n);
    let cut = row.take(n);
    if n > rest.len() {
        assert(cut.last() == 0);
        assert(cut.drop_last() =~= rest);
        assert(trim_end(cut, 0) == trim_end(rest, 0));
    } else {
        assert(cut =~= rest);
    }
}

/// Ones at the end are taken off.
proof fn lemma_ones_are_trimmed(row: Seq<u16>, n: int)
    requires
        0 < n <= row.len(),
        forall|k: int| n <= k < row.len() ==> #[trigger] row[k] == 0xFFFF,
        row[n - 1] != 0xFFFF,
    ensures
        trim_end(row, 0xFFFF) == row.take(n),
    decreases row.len(),
{
    if n == row.len() {
        assert(row.take(n) =~= row);
    } else {
        assert(row.last() == 0xFFFF);
        lemma_ones_are_trimmed(row.drop_last(), n);
        assert(row.drop_last().take(n) =~= row.take(n));
    }
}

/// An entry has a long name if all the pieces of that name stand right in front of it,
/// whatever stands in front of those, and however many there are. It has no other name
/// then: it is found by what counts as that name, and by nothing else.
pub proof fn law_spelled_name_is_borne(
    front: Seq<LfnView>,
    chain: Seq<LfnView>,
    short_name: Seq<u8>,
    text: Seq<char>,
    sought: Seq<char>,
    fold_case: bool,
)
    requires
        spells_out(chain, csum_of(short_name), utf16(text)),
        utf16(text).last() != 0 && utf16(text).last() != 0xFFFF,
    ensures
        bears_name(front + chain, short_name, sought, fold_case) <==> reads_as(
            sought,
            text,
            fold_case,
        ),
{
    let all = front + chain;
    let from = front.len() as int;
    let csum = csum_of(short_name);
    lemma_spelled_units(chain, csum, utf16(text), chain.len() as int);
    assert(chain.take(chain.len() as int) =~= chain);
    assert(utf16(text).skip(0) =~= utf16(text));
    assert(all.skip(from) =~= chain);
    law_text_spells_itself(text, sought, fold_case);
    if reads_as(sought, text, fold_case) {
        assert(chain_reads(all.skip(from), csum, sought, fold_case));
    }
    if bears_name(all, short_name, sought, fold_case) {
        let n = choose|n: int|
            0 <= n <= all.len() && chain_reads(#[trigger] all.skip(n), csum, sought, fold_case);
        let borne = all.skip(n);
        assert(borne.len() > 0);
        assert(chain[0].is_start);
        if n < from {
            assert(borne[from - n] == chain[0]);
            assert(!borne[from - n].is_start);
        }
        if n > from {
            assert(borne[0] == chain[n - from]);
            assert(borne[0].is_start);
        }
        assert(n == from);
    }
}

/// Are these, from number `n` on, all the pieces of one long name, with the mark of a
/// beginning on the first of them and on no other, numbered downwards to one, and each
/// with this checksum?
pub open spec fn is_whole_from(pieces: Seq<LfnView>, n: int, csum: u8) -> bool {
    0 <= n < pieces.len() && forall|i: int|
        n <= i < pieces.len() ==> {
            &&& (#[trigger] pieces[i]).is_start == (i == n)
            &&& pieces[i].sequence == pieces.len() - i
            &&& pieces[i].csum == csum
        }
}

/// An entry has a long name only if all the pieces of one stand right in front of it,
/// each with the checksum of its short name.
pub proof fn law_borne_name_is_whole(
    pieces: Seq<LfnView>,
    short_name: Seq<u8>,
    sought: Seq<char>,
    fold_case: bool,
)
    requires
        bears_name(pieces, short_name, sought, fold_case),
    ensures
        exists|n: int| #[trigger] is_whole_from(pieces, n, csum_of(short_name)),
{
    let n = choose|n: int|
        0 <= n <= pieces.len() && chain_reads(
            #[trigger] pieces.skip(n),
            csum_of(short_name),
            sought,
            fold_case,
        );
    let chain = pieces.skip(n);
    assert(chain.len() > 0);
    assert forall|i: int| n <= i < pieces.len() implies {
        &&& (#[trigger] pieces[i]).is_start == (i == n)
        &&& pieces[i].sequence == pieces.len() - i
        &&& pieces[i].csum == csum_of(short_name)
    } by {
        assert(chain[i - n] == pieces[i]);
    }
    assert(is_whole_from(pieces, n, csum_of(short_name)));
}

} // verus!
