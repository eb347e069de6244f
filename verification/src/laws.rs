//! What holds of the library as a whole.

use crate::alias::{
    alias_byte, alias_count, basis_extension, candidate, candidate_name, candidate_stem,
    lemma_candidate, AliasOutcome,
};
use crate::allocation::{zeroed, HintSearch};
use crate::block::{blank_block, BlockCache, BlockDevice, Disk};
use crate::boot::{info_format_error, info_free_count, info_next_free};
use crate::bytes::{
    le16, le16_bytes, le32, le32_bytes, lemma_le16_round_trip, lemma_le32_round_trip, splice,
};
use crate::creation::{with_slots, writing_fails};
use crate::deletion::{deletes, deletion_order, with_deleted, with_deletions, with_slot};
use crate::directory::{slot_bytes, DirectorySlot};
use crate::entry::{
    entry_bytes, slot_cluster, slot_entry, slot_is_end, slot_is_valid, ClusterId, EntryView, FatType,
};
use crate::error::Error;
use crate::label::{is_white, label_bytes, label_error, trim_white};
use crate::name::{ascii_upper, name_step, name_steps, short_name_of, PartialName};
use crate::table::Link;
use crate::time::{fat_date, fat_time, lemma_timestamp_round_trip, storable, timestamp_of};
use crate::volume::{FatSpecificInfo, FatVolume};
use vstd::prelude::*;

verus! {

/// Is every block of the disk 512 bytes long?
pub open spec fn whole_blocks(disk: Disk) -> bool {
    forall|i: u32| (#[trigger] disk[i]).len() == 512
}

/// Is `c` a number by which a table entry can refer to a cluster?
pub open spec fn is_reference(volume: FatVolume, c: ClusterId) -> bool {
    match volume.fat_specific_info {
        FatSpecificInfo::Fat16(_) => c.0 < 0xFFF7,
        FatSpecificInfo::Fat32(_) => 2 <= c.0 < 0x0FFF_FFF7,
    }
}

/// Does writing the entry of `a` leave the block with the entry of `b` alone, but
/// for the entry of `a` itself? It does unless the second table lies over the
/// first one.
pub open spec fn tables_apart(volume: FatVolume, a: ClusterId, b: ClusterId) -> bool {
    volume.mirror_block(a) != Some(volume.entry_block(b)) || volume.entry_block(a)
        == volume.entry_block(b)
}

/// A 16-bit entry that was written into a block is read back.
proof fn lemma_entry_set_16(volume: FatVolume, block: Seq<u8>, c: ClusterId, value: ClusterId)
    requires
        block.len() == 512,
        volume.fat_specific_info is Fat16,
    ensures
        volume.entry_in(volume.entry_set(block, volume.entry_offset(c), value), c)
            == volume.stored(value),
{
    lemma_le16_round_trip(block, volume.entry_offset(c), volume.stored(value) as u16);
}

/// A 28-bit entry that was written into a block is read back.
proof fn lemma_entry_set_32(volume: FatVolume, block: Seq<u8>, c: ClusterId, value: ClusterId)
    requires
        block.len() == 512,
        volume.fat_specific_info is Fat32,
    ensures
        volume.entry_in(volume.entry_set(block, volume.entry_offset(c), value), c)
            == volume.stored(value),
{
    let at = volume.entry_offset(c);
    let high = le32(block, at) / 0x1000_0000;
    let new = (high * 0x1000_0000 + volume.stored(value)) as u32;
    lemma_le32_round_trip(block, at, new);
    assert(new % 0x1000_0000 == volume.stored(value));
}

/// What was written into the table is what the table says.
pub proof fn law_entry_reads_back(volume: FatVolume, disk: Disk, c: ClusterId, value: ClusterId)
    requires
        whole_blocks(disk),
        volume.entries_in_reach(c),
    ensures
        volume.entry(volume.with_entry(disk, c, value), c) == volume.stored(value),
{
    let block = disk[volume.entry_block(c) as u32];
    let changed = volume.entry_block_with(disk, c, value);
    assert(volume.with_entry(disk, c, value)[volume.entry_block(c) as u32] == changed);
    match volume.fat_specific_info {
        FatSpecificInfo::Fat16(_) => lemma_entry_set_16(volume, block, c, value),
        FatSpecificInfo::Fat32(_) => lemma_entry_set_32(volume, block, c, value),
    }
}

/// What was written into the table for one cluster changes nothing for another.
pub proof fn law_other_entries_stay(
    volume: FatVolume,
    disk: Disk,
    c: ClusterId,
    value: ClusterId,
    other: ClusterId,
)
    requires
        whole_blocks(disk),
        volume.entries_in_reach(c),
        volume.entry_in_reach(other),
        other != c,
        tables_apart(volume, c, other),
    ensures
        volume.entry(volume.with_entry(disk, c, value), other) == volume.entry(disk, other),
{
    let after = volume.with_entry(disk, c, value);
    let here = volume.entry_block(c);
    let there = volume.entry_block(other);
    let block = disk[here as u32];
    let at = volume.entry_offset(c);
    let to = volume.entry_offset(other);
    if here == there {
        let changed = volume.entry_block_with(disk, c, value);
        assert(after[there as u32] == changed);
        match volume.fat_specific_info {
            FatSpecificInfo::Fat16(_) => {
                assert(to + 2 <= at || at + 2 <= to);
                assert(changed[to] == block[to] && changed[to + 1] == block[to + 1]);
            },
            FatSpecificInfo::Fat32(_) => {
                assert(to + 4 <= at || at + 4 <= to);
                assert(changed[to] == block[to] && changed[to + 1] == block[to + 1] && changed[to
                    + 2] == block[to + 2] && changed[to + 3] == block[to + 3]);
            },
        }
    } else {
        assert(after[there as u32] == disk[there as u32]);
    }
}

/// Blocks stay whole when the table is written.
pub proof fn law_blocks_stay_whole(volume: FatVolume, disk: Disk, c: ClusterId, value: ClusterId)
    requires
        whole_blocks(disk),
    ensures
        whole_blocks(volume.with_first_entry(disk, c, value)),
        whole_blocks(volume.with_entry(disk, c, value)),
{
}

/// A cluster that was marked as the end of a chain ends it.
pub proof fn law_end_reads_back(volume: FatVolume, disk: Disk, c: ClusterId)
    requires
        whole_blocks(disk),
        volume.entries_in_reach(c),
    ensures
        volume.link(
            volume.with_entry(disk, c, ClusterId(ClusterId::END_OF_FILE)),
            c,
        ) == Link::End,
{
    law_entry_reads_back(volume, disk, c, ClusterId(ClusterId::END_OF_FILE));
}

/// A cluster that was linked to another leads there.
pub proof fn law_link_reads_back(volume: FatVolume, disk: Disk, c: ClusterId, next: ClusterId)
    requires
        whole_blocks(disk),
        volume.entries_in_reach(c),
        is_reference(volume, next),
    ensures
        volume.link(volume.with_entry(disk, c, next), c) == Link::Next(next),
{
    law_entry_reads_back(volume, disk, c, next);
}

/// A cluster that was freed is free, and on FAT32 it does not lead anywhere. On
/// FAT16 a free entry reads as one that leads to cluster zero.
pub proof fn law_free_reads_back(volume: FatVolume, disk: Disk, c: ClusterId)
    requires
        whole_blocks(disk),
        volume.entries_in_reach(c),
    ensures
        volume.entry(volume.with_entry(disk, c, ClusterId(ClusterId::EMPTY)), c) == 0,
        volume.link(
            volume.with_entry(disk, c, ClusterId(ClusterId::EMPTY)),
            c,
        ) == match volume.fat_specific_info {
            FatSpecificInfo::Fat16(_) => Link::Next(ClusterId(0)),
            FatSpecificInfo::Fat32(_) => Link::Free,
        },
{
    law_entry_reads_back(volume, disk, c, ClusterId(ClusterId::EMPTY));
}

/// After an entry was written, both tables hold the same block for it.
pub proof fn law_tables_agree(volume: FatVolume, disk: Disk, c: ClusterId, value: ClusterId)
    requires
        volume.entries_in_reach(c),
    ensures
        volume.mirror_block(c) matches Some(block) ==> volume.with_entry(disk, c, value)[block as u32]
            == volume.with_entry(disk, c, value)[volume.entry_block(c) as u32],
{
}

/// Writing an entry again repairs a write that only reached the first table.
pub proof fn law_replay_repairs(volume: FatVolume, disk: Disk, c: ClusterId, value: ClusterId)
    requires
        whole_blocks(disk),
        volume.entries_in_reach(c),
    ensures
        volume.with_entry(volume.with_first_entry(disk, c, value), c, value) == volume.with_entry(
            disk,
            c,
            value,
        ),
{
    let once = volume.with_first_entry(disk, c, value);
    let block = disk[volume.entry_block(c) as u32];
    let at = volume.entry_offset(c);
    law_entry_reads_back(volume, disk, c, value);
    match volume.fat_specific_info {
        FatSpecificInfo::Fat16(_) => {
            let raw = le16_bytes(volume.stored(value) as u16);
            assert(splice(splice(block, at, raw), at, raw) =~= splice(block, at, raw));
        },
        FatSpecificInfo::Fat32(_) => {
            let high = le32(block, at) / 0x1000_0000;
            let new = (high * 0x1000_0000 + volume.stored(value)) as u32;
            lemma_le32_round_trip(block, at, new);
            assert(new / 0x1000_0000 == high);
            let raw = le32_bytes(new);
            assert(splice(splice(block, at, raw), at, raw) =~= splice(block, at, raw));
        },
    }
    assert(volume.entry_block_with(once, c, value) == volume.entry_block_with(disk, c, value));
    assert(volume.with_entry(once, c, value) =~= volume.with_entry(disk, c, value));
}

/// Writing the same entry twice is the same as writing it once, so freeing the
/// same cluster again does no harm.
pub proof fn law_entry_twice(volume: FatVolume, disk: Disk, c: ClusterId, value: ClusterId)
    requires
        whole_blocks(disk),
        volume.entries_in_reach(c),
    ensures
        volume.with_entry(volume.with_entry(disk, c, value), c, value) == volume.with_entry(
            disk,
            c,
            value,
        ),
{
    law_replay_repairs(volume, disk, c, value);
    let once = volume.with_first_entry(disk, c, value);
    let both = volume.with_entry(disk, c, value);
    assert(both[volume.entry_block(c) as u32] == once[volume.entry_block(c) as u32]);
    assert(volume.entry_block_with(both, c, value) == volume.entry_block_with(once, c, value));
    assert(volume.with_entry(both, c, value) =~= both);
}

/// An allocation claims a cluster of the volume that was not in use.
pub proof fn law_allocated_was_free(
    volume: FatVolume,
    disk: Disk,
    prev: Option<ClusterId>,
    zero: bool,
    search: HintSearch,
)
    requires
        volume.end_cluster() <= u32::MAX,
    ensures
        volume.allocation(disk, prev, zero, search) matches Some(a) ==> {
            &&& a.cluster.0 < volume.end_cluster()
            &&& volume.entry(disk, a.cluster) == 0
        },
{
    volume.lemma_first_free(disk, volume.search_start(), volume.end_cluster());
    volume.lemma_first_free(disk, 2, volume.end_cluster());
}

/// An allocation fails for want of space only if no cluster of the volume is free, from
/// the one numbered 2 to the last one.
pub proof fn law_full_means_full(volume: FatVolume, disk: Disk, c: ClusterId)
    requires
        volume.cluster_count + 2 <= u32::MAX,
        volume.chosen(disk) is None,
        2 <= c.0 <= volume.cluster_count + 1,
    ensures
        volume.entry(disk, c) != 0,
{
    volume.lemma_first_free(disk, volume.search_start(), volume.end_cluster());
    volume.lemma_first_free(disk, 2, volume.end_cluster());
    assert(ClusterId(c.0) == c);
}

/// A cluster that was claimed ends its chain, and the cluster before it, if
/// there is one, leads to it.
pub proof fn law_claim_links(
    volume: FatVolume,
    disk: Disk,
    prev: Option<ClusterId>,
    c: ClusterId,
)
    requires
        whole_blocks(disk),
        volume.entries_in_reach(c),
        prev matches Some(p) ==> volume.entries_in_reach(p) && p != c && tables_apart(volume, p, c),
    ensures
        volume.link(volume.with_claim(disk, prev, c), c) == Link::End,
        prev matches Some(p) ==> is_reference(volume, c) ==> volume.link(
            volume.with_claim(disk, prev, c),
            p,
        ) == Link::Next(c),
{
    let ended = volume.with_entry(disk, c, ClusterId(ClusterId::END_OF_FILE));
    law_end_reads_back(volume, disk, c);
    law_blocks_stay_whole(volume, disk, c, ClusterId(ClusterId::END_OF_FILE));
    if let Some(p) = prev {
        law_other_entries_stay(volume, ended, p, c, c);
        if is_reference(volume, c) {
            law_link_reads_back(volume, ended, p, c);
        }
    }
}

/// A claim changes what the table says of no cluster but the two that it is
/// about.
pub proof fn law_claim_leaves_others(
    volume: FatVolume,
    disk: Disk,
    prev: Option<ClusterId>,
    c: ClusterId,
    other: ClusterId,
)
    requires
        whole_blocks(disk),
        volume.entries_in_reach(c),
        volume.entry_in_reach(other),
        other != c,
        tables_apart(volume, c, other),
        prev matches Some(p) ==> volume.entries_in_reach(p) && p != other && tables_apart(
            volume,
            p,
            other,
        ),
    ensures
        volume.entry(volume.with_claim(disk, prev, c), other) == volume.entry(disk, other),
{
    let end = ClusterId(ClusterId::END_OF_FILE);
    law_other_entries_stay(volume, disk, c, end, other);
    law_blocks_stay_whole(volume, disk, c, end);
    if let Some(p) = prev {
        law_other_entries_stay(volume, volume.with_entry(disk, c, end), p, c, other);
    }
}

/// Filling blocks with zeros does that, and changes no other block.
pub proof fn law_zeroed(disk: Disk, start: int, n: nat, i: u32)
    requires
        0 <= start,
        start + n <= u32::MAX + 1,
    ensures
        zeroed(disk, start, n)[i] == if start <= i < start + n {
            blank_block()
        } else {
            disk[i]
        },
    decreases n,
{
    if n > 0 {
        law_zeroed(disk, start, (n - 1) as nat, i);
    }
}

/// Handing a cluster back after it was claimed leaves the count of free clusters
/// as it was.
pub proof fn law_release_restores_count(
    volume: FatVolume,
    disk: Disk,
    c: ClusterId,
    search: HintSearch,
)
    requires
        volume.free_clusters_count != Some(0u32),
    ensures
        volume.after_claim(disk, c, search).after_release(c).free_clusters_count
            == volume.free_clusters_count,
        volume.after_claim(disk, c, search).after_release(c).next_free_cluster == Some(c),
{
}

/// Are these the clusters of a chain, in order? None of them comes twice, and
/// all of them are in reach.
pub open spec fn is_chain(volume: FatVolume, disk: Disk, chain: Seq<ClusterId>) -> bool {
    &&& chain.len() > 0
    &&& chain.no_duplicates()
    &&& forall|i: int|
        0 <= i < chain.len() ==> (#[trigger] chain[i]).0 <= u32::MAX / 4 && volume.entries_in_reach(
            chain[i],
        )
    &&& forall|i: int|
        0 <= i < chain.len() - 1 ==> volume.link(disk, #[trigger] chain[i]) == Link::Next(
            chain[i + 1],
        )
    &&& volume.link(disk, chain.last()) == Link::End
}

/// Is the second table apart from the entries of all these clusters?
pub open spec fn all_apart(volume: FatVolume, chain: Seq<ClusterId>) -> bool {
    forall|i: int, j: int|
        0 <= i < chain.len() && 0 <= j < chain.len() ==> tables_apart(
            volume,
            #[trigger] chain[i],
            #[trigger] chain[j],
        )
}

/// A chain whose clusters are not touched stays a chain.
proof fn lemma_chain_stays(
    volume: FatVolume,
    disk: Disk,
    chain: Seq<ClusterId>,
    value: ClusterId,
)
    requires
        whole_blocks(disk),
        is_chain(volume, disk, chain),
        chain.len() > 1,
        all_apart(volume, chain),
    ensures
        is_chain(volume, volume.with_entry(disk, chain[0], value), chain.skip(1)),
        all_apart(volume, chain.skip(1)),
        whole_blocks(volume.with_entry(disk, chain[0], value)),
{
    let changed = volume.with_entry(disk, chain[0], value);
    let rest = chain.skip(1);
    law_blocks_stay_whole(volume, disk, chain[0], value);
    assert forall|i: int| 1 <= i < chain.len() implies volume.link(changed, #[trigger] chain[i])
        == volume.link(disk, chain[i]) by {
        law_other_entries_stay(volume, disk, chain[0], value, chain[i]);
    }
    assert forall|i: int| 0 <= i < rest.len() - 1 implies volume.link(changed, #[trigger] rest[i])
        == Link::Next(rest[i + 1]) by {
        assert(rest[i] == chain[i + 1]);
    }
    assert(rest.last() == chain[chain.len() - 1]);
}

/// Freeing a chain frees every one of its clusters, and changes nothing for a
/// cluster that is none of them.
proof fn lemma_free_chain(volume: FatVolume, disk: Disk, chain: Seq<ClusterId>, other: ClusterId)
    requires
        whole_blocks(disk),
        is_chain(volume, disk, chain),
        all_apart(volume, chain),
        volume.entry_in_reach(other),
        forall|i: int| 0 <= i < chain.len() ==> tables_apart(volume, #[trigger] chain[i], other),
    ensures
        volume.freed_within(disk, chain[0], chain.len()) matches Some(f) && {
            &&& f.end == Link::End
            &&& f.freed == chain.len()
            &&& volume.entry(f.disk, other) == if chain.contains(other) {
                0
            } else {
                volume.entry(disk, other)
            }
        },
    decreases chain.len(),
{
    let empty = ClusterId(ClusterId::EMPTY);
    let freed = volume.with_entry(disk, chain[0], empty);
    law_free_reads_back(volume, disk, chain[0]);
    if other != chain[0] {
        law_other_entries_stay(volume, disk, chain[0], empty, other);
    }
    if chain.len() == 1 {
        assert(chain.contains(other) <==> chain[0] == other) by {
            if chain[0] == other {
                assert(chain.contains(chain[0]));
            }
        }
    } else {
        lemma_chain_stays(volume, disk, chain, empty);
        let rest = chain.skip(1);
        assert forall|i: int| 0 <= i < rest.len() implies tables_apart(
            volume,
            #[trigger] rest[i],
            other,
        ) by {
            assert(rest[i] == chain[i + 1]);
        }
        lemma_free_chain(volume, freed, rest, other);
        assert(chain.contains(other) <==> chain[0] == other || rest.contains(other)) by {
            if rest.contains(other) {
                let i = choose|i: int| 0 <= i < rest.len() && rest[i] == other;
                assert(chain[i + 1] == other);
            }
            if chain.contains(other) && chain[0] != other {
                let i = choose|i: int| 0 <= i < chain.len() && chain[i] == other;
                assert(rest[i - 1] == other);
            }
            if chain[0] == other {
                assert(chain.contains(chain[0]));
            }
        }
        if chain[0] == other {
            assert(!rest.contains(other)) by {
                if rest.contains(other) {
                    let i = choose|i: int| 0 <= i < rest.len() && rest[i] == other;
                    assert(chain[i + 1] == chain[0]);
                }
            }
        }
    }
}

/// Truncating a chain behind its first cluster makes that cluster the end, frees
/// every cluster behind it, and changes nothing for a cluster outside the chain.
pub proof fn law_truncation(
    volume: FatVolume,
    disk: Disk,
    chain: Seq<ClusterId>,
    other: ClusterId,
)
    requires
        whole_blocks(disk),
        is_chain(volume, disk, chain),
        chain.len() >= 2,
        all_apart(volume, chain),
        volume.entry_in_reach(other),
        forall|i: int| 0 <= i < chain.len() ==> tables_apart(volume, #[trigger] chain[i], other),
    ensures
        volume.freeing(
            volume.with_entry(disk, chain[0], ClusterId(ClusterId::END_OF_FILE)),
            chain[1],
        ) matches Some(f) && {
            &&& f.end == Link::End
            &&& f.freed == chain.len() - 1
            &&& volume.link(f.disk, chain[0]) == Link::End
            &&& chain.skip(1).contains(other) ==> volume.entry(f.disk, other) == 0
            &&& !chain.contains(other) ==> volume.entry(f.disk, other) == volume.entry(disk, other)
        },
{
    let end = ClusterId(ClusterId::END_OF_FILE);
    let ended = volume.with_entry(disk, chain[0], end);
    let rest = chain.skip(1);
    lemma_chain_stays(volume, disk, chain, end);
    law_end_reads_back(volume, disk, chain[0]);
    assert forall|i: int| 0 <= i < rest.len() implies tables_apart(volume, #[trigger] rest[i], other)
        && tables_apart(volume, rest[i], chain[0]) by {
        assert(rest[i] == chain[i + 1]);
    }
    assert(!rest.contains(chain[0])) by {
        if rest.contains(chain[0]) {
            let i = choose|i: int| 0 <= i < rest.len() && rest[i] == chain[0];
            assert(chain[i + 1] == chain[0]);
        }
    }
    lemma_free_chain(volume, ended, rest, other);
    lemma_free_chain(volume, ended, rest, chain[0]);
    volume.lemma_freeing(ended, chain[1], rest.len());
    if !chain.contains(other) {
        assert(chain.contains(chain[0]));
        law_other_entries_stay(volume, disk, chain[0], end, other);
        assert(!rest.contains(other)) by {
            if rest.contains(other) {
                let i = choose|i: int| 0 <= i < rest.len() && rest[i] == other;
                assert(chain[i + 1] == other);
            }
        }
    }
}

/// Can the stored form of an entry express this one exactly?
pub open spec fn storable_entry(e: EntryView, fat_type: FatType) -> bool {
    &&& e.name.len() == 11
    &&& storable(e.mtime)
    &&& storable(e.ctime)
    &&& fat_type == FatType::Fat16 ==> e.cluster.0 <= 0xFFFF
    &&& e.attributes.names_directory() ==> e.cluster.0 != 0
}

/// Where the parts of a stored entry stand.
pub proof fn lemma_entry_layout(e: EntryView, fat_type: FatType)
    requires
        e.name.len() == 11,
    ensures
        ({
            let raw = entry_bytes(e, fat_type);
            let high = match fat_type {
                FatType::Fat16 => 0u16,
                FatType::Fat32 => (e.cluster.0 / 65536) as u16,
            };
            &&& raw.len() == 32
            &&& raw.take(11) == e.name
            &&& raw[11] == e.attributes.0
            &&& raw.subrange(14, 16) == le16_bytes(fat_time(e.ctime))
            &&& raw.subrange(16, 18) == le16_bytes(fat_date(e.ctime))
            &&& raw.subrange(20, 22) == le16_bytes(high)
            &&& raw.subrange(22, 24) == le16_bytes(fat_time(e.mtime))
            &&& raw.subrange(24, 26) == le16_bytes(fat_date(e.mtime))
            &&& raw.subrange(26, 28) == le16_bytes((e.cluster.0 % 65536) as u16)
            &&& raw.subrange(28, 32) == le32_bytes(e.size)
        }),
{
    let raw = entry_bytes(e, fat_type);
    let high = match fat_type {
        FatType::Fat16 => 0u16,
        FatType::Fat32 => (e.cluster.0 / 65536) as u16,
    };
    assert(raw.take(11) =~= e.name);
    assert(raw.subrange(14, 16) =~= le16_bytes(fat_time(e.ctime)));
    assert(raw.subrange(16, 18) =~= le16_bytes(fat_date(e.ctime)));
    assert(raw.subrange(20, 22) =~= le16_bytes(high));
    assert(raw.subrange(22, 24) =~= le16_bytes(fat_time(e.mtime)));
    assert(raw.subrange(24, 26) =~= le16_bytes(fat_date(e.mtime)));
    assert(raw.subrange(26, 28) =~= le16_bytes((e.cluster.0 % 65536) as u16));
    assert(raw.subrange(28, 32) =~= le32_bytes(e.size));
}

/// Two bytes that are those of a number stand for it.
proof fn lemma_le16_at(raw: Seq<u8>, at: int, n: u16)
    requires
        0 <= at,
        at + 2 <= raw.len(),
        raw.subrange(at, at + 2) == le16_bytes(n),
    ensures
        le16(raw, at) == n,
{
    assert(raw[at] == raw.subrange(at, at + 2)[0]);
    assert(raw[at + 1] == raw.subrange(at, at + 2)[1]);
}

/// Four bytes that are those of a number stand for it.
proof fn lemma_le32_at(raw: Seq<u8>, at: int, n: u32)
    requires
        0 <= at,
        at + 4 <= raw.len(),
        raw.subrange(at, at + 4) == le32_bytes(n),
    ensures
        le32(raw, at) == n,
{
    let part = raw.subrange(at, at + 4);
    assert(splice(part, 0, le32_bytes(n)) =~= part);
    lemma_le32_round_trip(part, 0, n);
    assert(raw[at] == part[0] && raw[at + 1] == part[1] && raw[at + 2] == part[2] && raw[at + 3]
        == part[3]);
}

/// A slot that says all that an entry says is read as that entry.
proof fn lemma_slot_entry(raw: Seq<u8>, e: EntryView, fat_type: FatType)
    requires
        raw.take(11) == e.name,
        raw[11] == e.attributes.0,
        timestamp_of(le16(raw, 16), le16(raw, 14)) == e.ctime,
        timestamp_of(le16(raw, 24), le16(raw, 22)) == e.mtime,
        slot_cluster(raw, fat_type) == e.cluster.0,
        le32(raw, 28) == e.size,
        e.attributes.names_directory() ==> e.cluster.0 != 0,
    ensures
        slot_entry(raw, fat_type, e.block, e.offset) == e,
{
}

/// The cluster number of an entry is read back.
proof fn lemma_slot_cluster(raw: Seq<u8>, fat_type: FatType, cluster: u32)
    requires
        le16(raw, 26) == cluster % 65536,
        match fat_type {
            FatType::Fat16 => cluster <= 0xFFFF,
            FatType::Fat32 => le16(raw, 20) == cluster / 65536,
        },
    ensures
        slot_cluster(raw, fat_type) == cluster,
{
}

/// What the slot of an entry says of its times, its first cluster and its size.
pub proof fn lemma_entry_parts(e: EntryView, fat_type: FatType)
    requires
        e.name.len() == 11,
    ensures
        ({
            let raw = entry_bytes(e, fat_type);
            &&& timestamp_of(le16(raw, 16), le16(raw, 14)) == timestamp_of(
                fat_date(e.ctime),
                fat_time(e.ctime),
            )
            &&& timestamp_of(le16(raw, 24), le16(raw, 22)) == timestamp_of(
                fat_date(e.mtime),
                fat_time(e.mtime),
            )
            &&& (fat_type == FatType::Fat16 ==> e.cluster.0 <= 0xFFFF) ==> slot_cluster(
                raw,
                fat_type,
            ) == e.cluster.0
            &&& le32(raw, 28) == e.size
        }),
{
    let raw = entry_bytes(e, fat_type);
    let low = (e.cluster.0 % 65536) as u16;
    let high = match fat_type {
        FatType::Fat16 => 0u16,
        FatType::Fat32 => (e.cluster.0 / 65536) as u16,
    };
    lemma_entry_layout(e, fat_type);
    lemma_le16_at(raw, 14, fat_time(e.ctime));
    lemma_le16_at(raw, 16, fat_date(e.ctime));
    lemma_le16_at(raw, 22, fat_time(e.mtime));
    lemma_le16_at(raw, 24, fat_date(e.mtime));
    lemma_le16_at(raw, 20, high);
    lemma_le16_at(raw, 26, low);
    if fat_type == FatType::Fat16 ==> e.cluster.0 <= 0xFFFF {
        lemma_slot_cluster(raw, fat_type, e.cluster.0);
    }
    lemma_le32_at(raw, 28, e.size);
}

/// An entry that was stored is read back as it was.
pub proof fn law_dir_entry_reads_back(e: EntryView, fat_type: FatType)
    requires
        storable_entry(e, fat_type),
    ensures
        entry_bytes(e, fat_type).len() == 32,
        slot_entry(entry_bytes(e, fat_type), fat_type, e.block, e.offset) == e,
{
    let raw = entry_bytes(e, fat_type);
    lemma_entry_layout(e, fat_type);
    lemma_entry_parts(e, fat_type);
    lemma_timestamp_round_trip(e.ctime);
    lemma_timestamp_round_trip(e.mtime);
    lemma_slot_entry(raw, e, fat_type);
}

/// Does a slot stand where slots can stand?
pub open spec fn slot_aligned(slot: DirectorySlot) -> bool {
    slot.offset % 32 == 0 && slot.offset <= 480
}

/// What was written into a slot is what it holds, and no other slot changes.
pub proof fn law_slot_reads_back(disk: Disk, slot: DirectorySlot, raw: Seq<u8>, other: DirectorySlot)
    requires
        whole_blocks(disk),
        slot_aligned(slot),
        slot_aligned(other),
        raw.len() == 32,
    ensures
        whole_blocks(with_slot(disk, slot, raw)),
        slot_bytes(with_slot(disk, slot, raw), other) == if other == slot {
            raw
        } else {
            slot_bytes(disk, other)
        },
{
    let after = with_slot(disk, slot, raw);
    if other == slot {
        assert(slot_bytes(after, other) =~= raw);
    } else {
        assert(slot_bytes(after, other) =~= slot_bytes(disk, other));
    }
}

/// A slot that was marked as deleted holds no entry any more, and no other slot
/// changes.
pub proof fn law_deleted_slot(disk: Disk, slot: DirectorySlot, other: DirectorySlot)
    requires
        whole_blocks(disk),
        slot_aligned(slot),
        slot_aligned(other),
    ensures
        whole_blocks(with_deleted(disk, slot)),
        other == slot ==> !slot_is_valid(slot_bytes(with_deleted(disk, slot), other))
            && !slot_is_end(slot_bytes(with_deleted(disk, slot), other)),
        other != slot ==> slot_bytes(with_deleted(disk, slot), other) == slot_bytes(disk, other),
{
    if other != slot {
        assert(slot_bytes(with_deleted(disk, slot), other) =~= slot_bytes(disk, other));
    }
}

/// Marking slots as deleted leaves every other slot as it was.
pub proof fn law_deletions_leave_others(
    disk: Disk,
    slots: Seq<DirectorySlot>,
    n: nat,
    other: DirectorySlot,
)
    requires
        whole_blocks(disk),
        n <= slots.len(),
        forall|i: int| 0 <= i < n ==> slot_aligned(#[trigger] slots[i]) && slots[i] != other,
        slot_aligned(other),
    ensures
        whole_blocks(with_deletions(disk, slots, n)),
        slot_bytes(with_deletions(disk, slots, n), other) == slot_bytes(disk, other),
    decreases n,
{
    if n > 0 {
        law_deletions_leave_others(disk, slots, (n - 1) as nat, other);
        law_deleted_slot(with_deletions(disk, slots, (n - 1) as nat), slots[n - 1], other);
    }
}

/// A slot that was marked as deleted stays so while others are.
proof fn lemma_first_deletion_stays(disk: Disk, slots: Seq<DirectorySlot>, n: nat)
    requires
        whole_blocks(disk),
        1 <= n <= slots.len(),
        forall|i: int| 0 <= i < slots.len() ==> slot_aligned(#[trigger] slots[i]),
        slots.no_duplicates(),
    ensures
        !slot_is_valid(slot_bytes(with_deletions(disk, slots, n), slots[0])),
        !slot_is_end(slot_bytes(with_deletions(disk, slots, n), slots[0])),
        whole_blocks(with_deletions(disk, slots, n)),
    decreases n,
{
    if n == 1 {
        reveal_with_fuel(with_deletions, 2);
        law_deleted_slot(disk, slots[0], slots[0]);
    } else {
        lemma_first_deletion_stays(disk, slots, (n - 1) as nat);
        assert(slots[n - 1] != slots[0]);
        law_deleted_slot(with_deletions(disk, slots, (n - 1) as nat), slots[n - 1], slots[0]);
    }
}

/// Are these slots that stand where slots can stand, none of them twice?
pub open spec fn distinct_slots(slots: Seq<DirectorySlot>) -> bool {
    slots.no_duplicates() && forall|i: int|
        0 <= i < slots.len() ==> slot_aligned(#[trigger] slots[i])
}

/// The order in which slots are marked is made of the same slots.
pub proof fn lemma_deletion_order(slots: Seq<DirectorySlot>)
    requires
        slots.len() > 0,
        distinct_slots(slots),
    ensures
        distinct_slots(deletion_order(slots)),
        deletion_order(slots).len() == slots.len(),
        deletion_order(slots)[0] == slots.last(),
        forall|s: DirectorySlot| #[trigger]
            deletion_order(slots).contains(s) ==> slots.contains(s),
{
    let order = deletion_order(slots);
    assert forall|i: int| 0 <= i < order.len() implies #[trigger] order[i] == slots[if i == 0 {
        slots.len() - 1
    } else {
        i - 1
    }] by {}
    assert forall|s: DirectorySlot| #[trigger] order.contains(s) implies slots.contains(s) by {
        let i = choose|i: int| 0 <= i < order.len() && order[i] == s;
        if i == 0 {
            assert(slots[slots.len() - 1] == s);
        } else {
            assert(slots[i - 1] == s);
        }
    }
}

/// Once a deletion has succeeded the entry is gone, even if the device reported
/// an error after that: the slot that makes the file exist holds no entry.
pub proof fn law_deleted_entry_is_gone(disk: Disk, slots: Seq<DirectorySlot>, n: nat)
    requires
        whole_blocks(disk),
        distinct_slots(slots),
        1 <= n <= slots.len(),
    ensures
        !slot_is_valid(
            slot_bytes(with_deletions(disk, deletion_order(slots), n), slots.last()),
        ),
{
    lemma_deletion_order(slots);
    lemma_first_deletion_stays(disk, deletion_order(slots), n);
}

/// Writing slots leaves every other slot as it was.
pub proof fn law_slots_leave_others(
    disk: Disk,
    slots: Seq<DirectorySlot>,
    raws: Seq<Seq<u8>>,
    n: nat,
    other: DirectorySlot,
)
    requires
        whole_blocks(disk),
        n <= slots.len(),
        n <= raws.len(),
        forall|i: int| 0 <= i < n ==> slot_aligned(#[trigger] slots[i]) && slots[i] != other,
        forall|i: int| 0 <= i < n ==> (#[trigger] raws[i]).len() == 32,
        slot_aligned(other),
    ensures
        whole_blocks(with_slots(disk, slots, raws, n)),
        slot_bytes(with_slots(disk, slots, raws, n), other) == slot_bytes(disk, other),
    decreases n,
{
    if n > 0 {
        law_slots_leave_others(disk, slots, raws, (n - 1) as nat, other);
        assert(raws[n - 1].len() == 32);
        assert(slots[n - 1] != other);
        law_slot_reads_back(
            with_slots(disk, slots, raws, (n - 1) as nat),
            slots[n - 1],
            raws[n - 1],
            other,
        );
    }
}

/// What was written into a row of slots is what they hold.
pub proof fn law_slots_read_back(
    disk: Disk,
    slots: Seq<DirectorySlot>,
    raws: Seq<Seq<u8>>,
    n: nat,
    i: int,
)
    requires
        whole_blocks(disk),
        distinct_slots(slots),
        n <= slots.len(),
        n <= raws.len(),
        forall|k: int| 0 <= k < n ==> (#[trigger] raws[k]).len() == 32,
        0 <= i < n,
    ensures
        slot_bytes(with_slots(disk, slots, raws, n), slots[i]) == raws[i],
        whole_blocks(with_slots(disk, slots, raws, n)),
    decreases n,
{
    let before = with_slots(disk, slots, raws, (n - 1) as nat);
    if i < n - 1 {
        law_slots_read_back(disk, slots, raws, (n - 1) as nat, i);
    } else {
        assert forall|k: int| 0 <= k < n - 1 implies slot_aligned(#[trigger] slots[k]) && slots[k]
            != slots[n - 1] by {}
        law_slots_leave_others(disk, slots, raws, (n - 1) as nat, slots[n - 1]);
    }
    assert(slot_aligned(slots[i]) && slot_aligned(slots[n - 1]) && raws[n - 1].len() == 32);
    law_slot_reads_back(before, slots[n - 1], raws[n - 1], slots[i]);
}

/// Slots that were marked as deleted stay so while others are.
pub proof fn lemma_deletion_stays(disk: Disk, slots: Seq<DirectorySlot>, n: nat, i: int)
    requires
        whole_blocks(disk),
        distinct_slots(slots),
        0 <= i < n <= slots.len(),
    ensures
        whole_blocks(with_deletions(disk, slots, n)),
        !slot_is_valid(slot_bytes(with_deletions(disk, slots, n), slots[i])),
        !slot_is_end(slot_bytes(with_deletions(disk, slots, n), slots[i])),
    decreases n,
{
    let before = with_deletions(disk, slots, (n - 1) as nat);
    if i < n - 1 {
        lemma_deletion_stays(disk, slots, (n - 1) as nat, i);
    } else {
        assert forall|j: int| 0 <= j < n - 1 implies slot_aligned(#[trigger] slots[j]) && slots[j]
            != slots[n - 1] by {}
        law_deletions_leave_others(disk, slots, (n - 1) as nat, slots[n - 1]);
    }
    assert(slot_aligned(slots[i]) && slot_aligned(slots[n - 1]));
    law_deleted_slot(before, slots[n - 1], slots[i]);
}

/// A creation that a device error put an end to has published nothing: the slot
/// that was to make the file exist is as it was, and so is every slot that was
/// not to be written. Nor is a piece of the name left behind, unless the device
/// reported a second error: every slot is as it was, or deleted.
pub proof fn law_failed_creation_publishes_nothing<D: BlockDevice>(
    before: BlockCache<D>,
    slots: Seq<DirectorySlot>,
    raws: Seq<Seq<u8>>,
    error: D::Error,
    after: BlockCache<D>,
    other: DirectorySlot,
)
    requires
        whole_blocks(before.disk()),
        distinct_slots(slots),
        slots.len() == raws.len(),
        forall|k: int| 0 <= k < raws.len() ==> (#[trigger] raws[k]).len() == 32,
        writing_fails(before, slots, raws, error, after),
        slot_aligned(other),
    ensures
        other == slots.last() || !slots.contains(other) ==> slot_bytes(after.disk(), other)
            == slot_bytes(before.disk(), other),
        after.faults() == before.faults() + 1 ==> {
            ||| slot_bytes(after.disk(), other) == slot_bytes(before.disk(), other)
            ||| {
                &&& !slot_is_valid(slot_bytes(after.disk(), other))
                &&& !slot_is_end(slot_bytes(after.disk(), other))
            }
        },
{
    let disk = before.disk();
    let (j, failed, undone) = choose|
        j: nat,
        failed: BlockCache<D>,
        undone: Result<(), Error<D::Error>>,
    |
        {
            &&& j < raws.len()
            &&& failed.failed_with(&before, error)
            &&& failed.disk() == with_slots(disk, slots, raws, j)
            &&& #[trigger] deletes(failed, after, slots.take(j as int), undone)
        };
    let written = with_slots(disk, slots, raws, j);
    let front = slots.take(j as int);
    let order = deletion_order(front);
    let n: nat = if undone is Err || j == 0 {
        0
    } else if after.untroubled(&failed) {
        j
    } else {
        choose|n: nat|
            1 <= n < j && after.disk() == #[trigger] with_deletions(written, order, n)
    };
    assert(after.disk() == with_deletions(written, order, n));
    if j > 0 {
        assert(distinct_slots(front));
        lemma_deletion_order(front);
        law_slots_read_back(disk, slots, raws, j, 0);
    }
    if !front.contains(other) {
        assert forall|i: int| 0 <= i < j implies slot_aligned(#[trigger] slots[i]) && slots[i]
            != other by {
            assert(front[i] == slots[i]);
            assert(front.contains(front[i]));
        }
        law_slots_leave_others(disk, slots, raws, j, other);
        if j > 0 {
            assert forall|i: int| 0 <= i < n implies slot_aligned(#[trigger] order[i]) && order[i]
                != other by {
                assert(order.contains(order[i]));
            }
            law_deletions_leave_others(written, order, n, other);
        }
    } else {
        let i = choose|i: int| 0 <= i < front.len() && front[i] == other;
        assert(slots[i] == other);
        assert(slots.contains(other));
        assert(slots.last() == slots[slots.len() - 1]);
        if after.faults() == before.faults() + 1 {
            assert(n == j);
            if i == j - 1 {
                lemma_deletion_stays(written, order, n, 0);
            } else {
                assert(order[i + 1] == front[i]);
                lemma_deletion_stays(written, order, n, i + 1);
            }
        }
    }
}

/// What was written to the info sector is what is read from it, where it says
/// anything.
pub proof fn law_info_sector_reads_back(volume: FatVolume, info: Seq<u8>)
    requires
        info.len() == 512,
        info_format_error(info) is None,
    ensures
        info_format_error(volume.info_sector_with(info)) is None,
        volume.free_clusters_count matches Some(count) ==> count != 0xFFFF_FFFF
            ==> info_free_count(volume.info_sector_with(info)) == Some(count),
        volume.next_free_cluster matches Some(c) ==> 2 <= c.0 < 0xFFFF_FFFF ==> info_next_free(
            volume.info_sector_with(info),
        ) == Some(c),
{
    let after = volume.info_sector_with(info);
    let counted = match volume.free_clusters_count {
        Some(count) => splice(info, 488, le32_bytes(count)),
        None => info,
    };
    if let Some(count) = volume.free_clusters_count {
        lemma_le32_round_trip(info, 488, count);
    }
    if let Some(c) = volume.next_free_cluster {
        lemma_le32_round_trip(counted, 492, c.0);
    }
    assert(after[488] == counted[488] && after[489] == counted[489] && after[490] == counted[490]
        && after[491] == counted[491]);
    assert forall|i: int| 0 <= i < 512 && !(488 <= i < 496) implies #[trigger] after[i]
        == info[i] by {}
    assert(le32(after, 0) == le32(info, 0));
    assert(le32(after, 484) == le32(info, 484));
    assert(le32(after, 508) == le32(info, 508));
    assert(le32(after, 488) == le32(counted, 488));
}

/// A label is read back as the text that it was made from, without the whitespace
/// at its end.
pub proof fn law_label_reads_back(s: Seq<char>)
    requires
        label_error(s) is None,
    ensures
        trim_white(label_bytes(s)) == trim_white(Seq::new(s.len(), |i: int| s[i] as u8)),
        !is_white(s.last() as u8) ==> trim_white(label_bytes(s)) == Seq::new(
            s.len(),
            |i: int| s[i] as u8,
        ),
{
    let text = Seq::new(s.len(), |i: int| s[i] as u8);
    lemma_trim_white(label_bytes(s), s.len());
    assert(label_bytes(s).take(s.len() as int) =~= text);
    assert(text.last() == s.last() as u8);
}

/// Trimming goes through what is all whitespace.
proof fn lemma_trim_white(bytes: Seq<u8>, n: nat)
    requires
        n <= bytes.len(),
        forall|i: int| n <= i < bytes.len() ==> is_white(#[trigger] bytes[i]),
    ensures
        trim_white(bytes) == trim_white(bytes.take(n as int)),
    decreases bytes.len(),
{
    if n == bytes.len() {
        assert(bytes.take(n as int) =~= bytes);
    } else {
        lemma_trim_white(bytes.drop_last(), n);
        assert(bytes.drop_last().take(n as int) =~= bytes.take(n as int));
    }
}

/// `s` with its ASCII letters in upper case.
pub open spec fn upper_case(s: Seq<char>) -> Seq<char>
    decreases s.len(),
{
    if s.len() == 0 {
        s
    } else {
        upper_case(s.drop_last()).push(ascii_upper(s.last()))
    }
}

/// Short names do not tell upper case from lower case.
pub proof fn law_short_names_ignore_case(s: Seq<char>)
    ensures
        short_name_of(upper_case(s)) == short_name_of(s),
{
    lemma_upper_case_steps(s);
    lemma_upper_case(s);
    let u = upper_case(s);
    if s.len() == 1 {
        assert(u[0] == ascii_upper(s[0]));
        assert(u == seq!['.'] <==> s == seq!['.']) by {
            if u == seq!['.'] {
                assert(s =~= seq!['.']);
            }
            if s == seq!['.'] {
                assert(u =~= seq!['.']);
            }
        }
    }
    if s.len() == 2 {
        assert(u[0] == ascii_upper(s[0]) && u[1] == ascii_upper(s[1]));
        assert(u == seq!['.', '.'] <==> s == seq!['.', '.']) by {
            if u == seq!['.', '.'] {
                assert(s =~= seq!['.', '.']);
            }
            if s == seq!['.', '.'] {
                assert(u =~= seq!['.', '.']);
            }
        }
    }
}

/// Each character is put in upper case.
proof fn lemma_upper_case(s: Seq<char>)
    ensures
        upper_case(s).len() == s.len(),
        forall|i: int| 0 <= i < s.len() ==> #[trigger] upper_case(s)[i] == ascii_upper(s[i]),
    decreases s.len(),
{
    if s.len() > 0 {
        lemma_upper_case(s.drop_last());
    }
}

/// A letter is read like its upper case form.
proof fn lemma_upper_step(name: PartialName, c: char)
    ensures
        name_step(name, ascii_upper(c)) == name_step(name, c),
{
}

/// A name is read like its upper case form.
proof fn lemma_upper_case_steps(s: Seq<char>)
    ensures
        name_steps(upper_case(s)) == name_steps(s),
    decreases s.len(),
{
    if s.len() > 0 {
        lemma_upper_case_steps(s.drop_last());
        let u = upper_case(s);
        assert(u.drop_last() =~= upper_case(s.drop_last()));
        if let Ok(name) = name_steps(s.drop_last()) {
            lemma_upper_step(name, s.last());
        }
    }
}

/// An alias that was found is one that nothing in the directory answers to.
pub proof fn law_alias_is_free(
    volume: FatVolume,
    disk: Disk,
    dir: ClusterId,
    long_name: Seq<char>,
    i: nat,
)
    ensures
        volume.alias_search(disk, dir, long_name, i) matches Some(AliasOutcome::Free(k)) ==> {
            &&& i <= k < alias_count()
            &&& volume.name_taken(disk, dir, candidate(long_name, k)) matches Some((taken, _))
                && !taken
        },
    decreases alias_count() - i,
{
    if i < alias_count() {
        law_alias_is_free(volume, disk, dir, long_name, i + 1);
    }
}

/// An alias never looks like a slot that is free, and is nothing but ASCII.
pub proof fn law_alias_is_ascii(long_name: Seq<char>, i: nat)
    ensures
        candidate_name(long_name, i).len() == 11,
        candidate_name(long_name, i)[0] != 0,
        forall|k: int| 0 <= k < 11 ==> #[trigger] candidate_name(long_name, i)[k] < 0x80,
{
    lemma_candidate(long_name, i);
    let name = candidate_name(long_name, i);
    let stem = candidate_stem(long_name, i);
    let extension = basis_extension(long_name);
    assert(alias_byte(stem[0]));
    assert forall|k: int| 0 <= k < 11 implies #[trigger] name[k] < 0x80 by {
        if k < 8 && k < stem.len() {
            assert(alias_byte(stem[k]));
        } else if k >= 8 && k - 8 < extension.len() {
            assert(alias_byte(extension[k - 8]));
        }
    }
}

} // verus!
