//! What the table and the clusters of a volume come to, byte by byte and block by
//! block.

use crate::allocation::{found_free, HintSearch};
use crate::block::Disk;
use crate::bytes::{le16_bytes, le32, le32_bytes, splice};
use crate::entry::ClusterId;
use crate::error::Error;
use crate::laws::{law_zeroed, whole_blocks};
use crate::table::followed;
use crate::volume::{FatSpecificInfo, FatVolume};
use vstd::prelude::*;

verus! {

/// The number that the first table holds for a cluster: its two bytes, or its four
/// bytes without the top four bits. A block has room for 256 entries of the one
/// kind, or 128 of the other.
pub open spec fn word_of(volume: FatVolume, disk: Disk, c: ClusterId) -> int {
    let table = volume.lba_start.0 + volume.fat_start.0;
    match volume.fat_specific_info {
        FatSpecificInfo::Fat16(_) => {
            let b = disk[(table + c.0 / 256) as u32];
            let at = c.0 % 256 * 2;
            b[at] + 0x100 * b[at + 1]
        },
        FatSpecificInfo::Fat32(_) => {
            let b = disk[(table + c.0 / 128) as u32];
            let at = c.0 % 128 * 4;
            b[at] + 0x100 * b[at + 1] + 0x1_0000 * b[at + 2] + 0x100_0000 * (b[at + 3] % 16)
        },
    }
}

/// What the table says of a cluster is the number that stands at its place.
pub proof fn law_entry_is_its_word(volume: FatVolume, disk: Disk, c: ClusterId)
    ensures
        volume.entry(disk, c) == word_of(volume, disk, c),
{
    let at = volume.entry_offset(c);
    match volume.fat_specific_info {
        FatSpecificInfo::Fat16(_) => {
            assert(c.0 * 2 / 512 == c.0 / 256);
            assert(c.0 * 2 % 512 == c.0 % 256 * 2);
        },
        FatSpecificInfo::Fat32(_) => {
            assert(c.0 * 4 / 512 == c.0 / 128);
            assert(c.0 * 4 % 512 == c.0 % 128 * 4);
            let b = disk[volume.entry_block(c) as u32];
            let top = b[at + 3];
            assert(top == top / 16 * 16 + top % 16);
        },
    }
}

/// Following a chain from a cluster leads where the number in the table says. One
/// number stands for a bad cluster, those above it for the end of the chain; on FAT32
/// zero is a cluster that is not in use, and one is the end of the chain, too.
pub proof fn law_next_cluster_is_read<E>(volume: FatVolume, disk: Disk, c: ClusterId)
    ensures
        ({
            let word = word_of(volume, disk, c);
            let result = followed::<E>(volume.link(disk, c));
            match volume.fat_specific_info {
                FatSpecificInfo::Fat16(_) => {
                    &&& word < 0xFFF7 ==> result == Ok::<ClusterId, Error<E>>(
                        ClusterId(word as u32),
                    )
                    &&& word == 0xFFF7 ==> result is Err && result->Err_0 is BadCluster
                    &&& word > 0xFFF7 ==> result is Err && result->Err_0 is EndOfFile
                },
                FatSpecificInfo::Fat32(_) => {
                    &&& 2 <= word < 0x0FFF_FFF7 ==> result == Ok::<ClusterId, Error<E>>(
                        ClusterId(word as u32),
                    )
                    &&& word == 0x0FFF_FFF7 ==> result is Err && result->Err_0 is BadCluster
                    &&& word > 0x0FFF_FFF7 || word == 1 ==> result is Err
                        && result->Err_0 is EndOfFile
                    &&& word == 0 ==> result is Err && result->Err_0 is UnterminatedFatChain
                },
            }
        }),
{
    law_entry_is_its_word(volume, disk, c);
}

/// How many entries of the table a block holds, and how many bytes each of them
/// takes.
pub open spec fn entries_per_block(volume: FatVolume) -> (int, int) {
    match volume.fat_specific_info {
        FatSpecificInfo::Fat16(_) => (256, 2),
        FatSpecificInfo::Fat32(_) => (128, 4),
    }
}

/// Where an entry stands.
proof fn lemma_entry_place(volume: FatVolume, c: ClusterId)
    ensures
        ({
            let (per_block, width) = entries_per_block(volume);
            &&& volume.entry_position(c) / 512 == c.0 as int / per_block
            &&& volume.entry_offset(c) == c.0 as int % per_block * width
            &&& 0 <= volume.entry_offset(c) <= 512 - width
        }),
{
}

/// Writing an entry of the table changes its own bytes, in the one table and in the
/// other if there is one, and nothing else on the disk. On FAT32 the top four bits
/// stay.
pub proof fn law_table_write_is_exact(
    volume: FatVolume,
    disk: Disk,
    c: ClusterId,
    value: ClusterId,
    block: u32,
    i: int,
)
    requires
        whole_blocks(disk),
        volume.entries_in_reach(c),
        0 <= i < 512,
    ensures
        ({
            let after = volume.with_entry(disk, c, value);
            let (per_block, width) = entries_per_block(volume);
            let first = volume.lba_start.0 + volume.fat_start.0 + c.0 as int / per_block;
            let at = c.0 as int % per_block * width;
            let own = disk[first as u32];
            &&& block != first && (volume.second_fat_start matches Some(start) ==> block
                != volume.lba_start.0 + start.0 + c.0 as int / per_block) ==> after[block]
                == disk[block]
            &&& volume.second_fat_start matches Some(start) ==> after[(volume.lba_start.0 + start.0
                + c.0 as int / per_block) as u32] == after[first as u32]
            &&& after[first as u32].len() == 512
            &&& after[first as u32][i] == if i == at {
                value.0 as int % 256
            } else if i == at + 1 {
                value.0 as int / 0x100 % 256
            } else if width == 4 && i == at + 2 {
                value.0 as int / 0x1_0000 % 256
            } else if width == 4 && i == at + 3 {
                value.0 as int / 0x100_0000 % 16 + own[i] as int / 16 * 16
            } else {
                own[i] as int
            }
        }),
{
    lemma_entry_place(volume, c);
    let own = disk[volume.entry_block(c) as u32];
    lemma_entry_bytes(volume, own, c, value, i);
}

/// The bytes of a block in which an entry was written over.
pub proof fn lemma_entry_bytes(
    volume: FatVolume,
    own: Seq<u8>,
    c: ClusterId,
    value: ClusterId,
    i: int,
)
    requires
        own.len() == 512,
        0 <= i < 512,
    ensures
        ({
            let at = volume.entry_offset(c);
            let width = entries_per_block(volume).1;
            let set = volume.entry_set(own, at, value);
            &&& set.len() == 512
            &&& set[i] == if i == at {
                value.0 as int % 256
            } else if i == at + 1 {
                value.0 as int / 0x100 % 256
            } else if width == 4 && i == at + 2 {
                value.0 as int / 0x1_0000 % 256
            } else if width == 4 && i == at + 3 {
                value.0 as int / 0x100_0000 % 16 + own[i] as int / 16 * 16
            } else {
                own[i] as int
            }
        }),
{
    lemma_entry_place(volume, c);
    let at = volume.entry_offset(c);
    match volume.fat_specific_info {
        FatSpecificInfo::Fat16(_) => {
            lemma_spliced_16(own, at, volume.stored(value) as u16, i);
            lemma_low_bytes(value.0);
        },
        FatSpecificInfo::Fat32(_) => {
            let word = (le32(own, at) / 0x1000_0000 * 0x1000_0000 + volume.stored(value)) as u32;
            lemma_spliced_32(own, at, word, i);
            lemma_top_bits_stay(own[at], own[at + 1], own[at + 2], own[at + 3], value.0);
        },
    }
}

/// The lower half of a number has its lower two bytes.
proof fn lemma_low_bytes(value: u32)
    ensures
        ({
            let low = (value % 0x1_0000) as u16;
            low % 256 == value % 256 && low / 256 == value / 0x100 % 256
        }),
{
}

/// The bytes of a block in which two were written over.
proof fn lemma_spliced_16(own: Seq<u8>, at: int, n: u16, i: int)
    requires
        0 <= i < own.len(),
    ensures
        splice(own, at, le16_bytes(n)).len() == own.len(),
        splice(own, at, le16_bytes(n))[i] == if i == at {
            (n % 256) as u8
        } else if i == at + 1 {
            (n / 256) as u8
        } else {
            own[i]
        },
{
}

/// The bytes of a block in which four were written over.
proof fn lemma_spliced_32(own: Seq<u8>, at: int, n: u32, i: int)
    requires
        0 <= i < own.len(),
    ensures
        splice(own, at, le32_bytes(n)).len() == own.len(),
        splice(own, at, le32_bytes(n))[i] == if at <= i < at + 4 {
            le32_bytes(n)[i - at]
        } else {
            own[i]
        },
{
}

/// Bytes are read back from the number that they make up.
proof fn lemma_digits(n: int, w: int, x: int, y: int, z: int)
    requires
        0 <= w < 256,
        0 <= x < 256,
        0 <= y < 256,
        0 <= z < 256,
        n == w + 256 * x + 65536 * y + 16777216 * z,
    ensures
        n % 256 == w,
        n / 256 % 256 == x,
        n / 65536 % 256 == y,
        n / 16777216 == z,
{
    assert(n / 256 == x + 256 * y + 65536 * z);
    assert(n / 65536 == y + 256 * z);
}

/// The lower 28 bits of a number are those of its lower four bytes.
proof fn lemma_low_bits(v: int)
    requires
        0 <= v,
    ensures
        v % 0x1000_0000 == v % 256 + 256 * (v / 0x100 % 256) + 65536 * (v / 0x1_0000 % 256)
            + 16777216 * (v / 0x100_0000 % 16),
{
    let a = v / 0x100;
    let b = v / 0x1_0000;
    let c = v / 0x100_0000;
    assert(b == a / 256);
    assert(c == b / 256);
    assert(v == 256 * a + v % 256);
    assert(a == 256 * b + a % 256);
    assert(b == 256 * c + b % 256);
    assert(c == 16 * (c / 16) + c % 16);
}

/// The top four bits of a number are those of its top byte.
proof fn lemma_top_bits(w: u8, x: u8, y: u8, z: u8)
    ensures
        (w + 256 * x + 65536 * y + 16777216 * z) / 0x1000_0000 == z / 16,
{
    assert(z == 16 * (z / 16) + z % 16);
}

/// The bytes of a 32-bit entry that was written over.
proof fn lemma_top_bits_stay(w: u8, x: u8, y: u8, z: u8, value: u32)
    ensures
        ({
            let old_word = (w + 256 * x + 65536 * y + 16777216 * z) as u32;
            let new_word = (old_word / 0x1000_0000 * 0x1000_0000 + value % 0x1000_0000) as u32;
            let bytes = le32_bytes(new_word);
            &&& bytes[0] == value % 256
            &&& bytes[1] == value / 0x100 % 256
            &&& bytes[2] == value / 0x1_0000 % 256
            &&& bytes[3] == value / 0x100_0000 % 16 + z / 16 * 16
        }),
{
    lemma_top_bits(w, x, y, z);
    lemma_low_bits(value as int);
    let v: int = value as int;
    let top: int = z as int / 16;
    let (p, q, r, s): (int, int, int, int) = (
        v % 256,
        v / 0x100 % 256,
        v / 0x1_0000 % 256,
        v / 0x100_0000 % 16,
    );
    lemma_digits(top * 0x1000_0000 + v % 0x1000_0000, p, q, r, s + 16 * top);
}

/// Clusters follow each other block by block, from the one numbered 2 on, which
/// stands where the data of the volume begins. What lies between the beginnings of two
/// of them is what a cluster holds.
pub proof fn law_clusters_follow_each_other(volume: FatVolume, c: ClusterId)
    requires
        2 <= c.0 < ClusterId::ROOT_DIR - 1,
    ensures
        volume.block_of(ClusterId(2)) == volume.lba_start.0 + volume.first_data_block.0,
        volume.block_of(ClusterId((c.0 + 1) as u32)) == volume.block_of(c)
            + volume.blocks_per_cluster,
        volume.cluster_bytes() == 512 * (volume.block_of(ClusterId((c.0 + 1) as u32))
            - volume.block_of(c)),
{
    assert(0 * volume.blocks_per_cluster == 0) by (nonlinear_arith);
    assert((c.0 + 1 - 2) * volume.blocks_per_cluster == (c.0 - 2) * volume.blocks_per_cluster
        + volume.blocks_per_cluster) by (nonlinear_arith);
}

/// The root directory stands in front of the clusters, in a region of its own, or
/// begins in one of them.
pub proof fn law_root_directory_has_its_place(volume: FatVolume)
    ensures
        volume.fat_specific_info matches FatSpecificInfo::Fat16(info) ==> volume.block_of(
            ClusterId(0xFFFF_FFFC),
        ) == volume.lba_start.0 + info.first_root_dir_block.0,
        volume.fat_specific_info matches FatSpecificInfo::Fat32(info) ==> volume.block_of(
            ClusterId(0xFFFF_FFFC),
        ) == volume.lba_start.0 + volume.first_data_block.0 + (info.first_root_dir_cluster.0 - 2)
            * volume.blocks_per_cluster,
{
}

/// A search for a free cluster finds the first one in its range of which the table
/// holds zero, and fails only if there is none.
pub proof fn law_first_free_cluster_is_found<E>(
    volume: FatVolume,
    disk: Disk,
    from: ClusterId,
    end: ClusterId,
    k: ClusterId,
)
    ensures
        match found_free::<E>(volume.first_free(disk, from.0 as int, end.0 as int)) {
            Ok(c) => {
                &&& from.0 <= c.0 < end.0
                &&& word_of(volume, disk, c) == 0
                &&& from.0 <= k.0 < c.0 ==> word_of(volume, disk, k) != 0
            },
            Err(error) => {
                &&& error is NotEnoughSpace
                &&& from.0 <= k.0 < end.0 ==> word_of(volume, disk, k) != 0
            },
        },
{
    volume.lemma_first_free(disk, from.0 as int, end.0 as int);
    law_entry_is_its_word(volume, disk, k);
    if let Some(c) = volume.first_free(disk, from.0 as int, end.0 as int) {
        law_entry_is_its_word(volume, disk, c);
    }
    assert(volume.entry(disk, ClusterId(k.0)) == word_of(volume, disk, k));
}

/// An allocation fails for want of space only if no cluster of the volume is free,
/// from the one numbered 2 to the last one, whose number is that of the clusters
/// plus one. As long as one of them is free, an allocation claims a cluster.
pub proof fn law_no_space_is_left_over(
    volume: FatVolume,
    disk: Disk,
    prev: Option<ClusterId>,
    zero: bool,
    search: HintSearch,
    free: ClusterId,
)
    requires
        volume.cluster_count + 2 <= u32::MAX,
        2 <= free.0 <= volume.cluster_count + 1,
        word_of(volume, disk, free) == 0,
    ensures
        volume.chosen(disk) is Some,
        volume.allocation(disk, prev, zero, search) is Some,
{
    let end = volume.cluster_count + 2;
    law_entry_is_its_word(volume, disk, free);
    assert(volume.entry(disk, ClusterId(free.0)) == 0);
    volume.lemma_first_free(disk, 2, end);
    volume.lemma_first_free(disk, volume.search_start(), end);
}

/// Where no cluster of the volume is free, an allocation claims none.
pub proof fn law_full_volume_has_no_space(
    volume: FatVolume,
    disk: Disk,
    prev: Option<ClusterId>,
    zero: bool,
    search: HintSearch,
)
    requires
        volume.cluster_count + 2 <= u32::MAX,
        volume.next_free_cluster matches Some(hint) ==> hint.0 >= 2,
        forall|k: u32|
            2 <= k <= volume.cluster_count + 1 ==> #[trigger] word_of(volume, disk, ClusterId(k))
                != 0,
    ensures
        volume.chosen(disk) is None,
        volume.allocation(disk, prev, zero, search) is None,
{
    let end = volume.cluster_count + 2;
    volume.lemma_first_free(disk, 2, end);
    volume.lemma_first_free(disk, volume.search_start(), end);
    if let Some(c) = volume.chosen(disk) {
        law_entry_is_its_word(volume, disk, c);
        assert(word_of(volume, disk, ClusterId(c.0)) == 0);
    }
}

/// An allocation claims the first free cluster from the hint on; where there is
/// none, or the hint is no cluster of the volume, or there is no hint, the first one
/// of all.
pub proof fn law_allocation_goes_by_the_hint(
    volume: FatVolume,
    disk: Disk,
    prev: Option<ClusterId>,
    zero: bool,
    search: HintSearch,
    k: ClusterId,
)
    requires
        volume.cluster_count + 2 <= u32::MAX,
        volume.next_free_cluster matches Some(hint) ==> hint.0 >= 2,
        volume.allocation(disk, prev, zero, search) is Some,
    ensures
        ({
            let c = (volume.allocation(disk, prev, zero, search)->0).cluster;
            &&& 2 <= c.0 <= volume.cluster_count + 1
            &&& word_of(volume, disk, c) == 0
            &&& match volume.next_free_cluster {
                Some(hint) if hint.0 <= volume.cluster_count + 1 => if c.0 >= hint.0 {
                    hint.0 <= k.0 < c.0 ==> word_of(volume, disk, k) != 0
                } else {
                    hint.0 <= k.0 <= volume.cluster_count + 1 || 2 <= k.0 < c.0 ==> word_of(
                        volume,
                        disk,
                        k,
                    ) != 0
                },
                _ => 2 <= k.0 < c.0 ==> word_of(volume, disk, k) != 0,
            }
        }),
{
    let end = volume.cluster_count + 2;
    let c = (volume.allocation(disk, prev, zero, search)->0).cluster;
    volume.lemma_first_free(disk, 2, end);
    volume.lemma_first_free(disk, volume.search_start(), end);
    law_entry_is_its_word(volume, disk, c);
    law_entry_is_its_word(volume, disk, k);
    assert(volume.entry(disk, ClusterId(k.0)) == word_of(volume, disk, k));
}

/// What is known of a volume after an allocation: one cluster less is free, where
/// they are counted, and the next search is to begin at a cluster that is free: the
/// first one behind the one that was taken, or the first one of all if none is free
/// behind it. Where the device reported no error and no such place is known, no cluster
/// is left. Everything else stays.
pub proof fn law_allocation_is_taken_note_of(
    volume: FatVolume,
    disk: Disk,
    prev: Option<ClusterId>,
    search: HintSearch,
    k: ClusterId,
)
    requires
        volume.cluster_count + 2 <= u32::MAX,
        volume.free_clusters_count != Some(0u32),
        volume.next_free_cluster matches Some(hint) ==> hint.0 >= 2,
        volume.allocation(disk, prev, false, search) is Some,
    ensures
        ({
            let a = volume.allocation(disk, prev, false, search)->0;
            &&& a.volume == (FatVolume {
                free_clusters_count: a.volume.free_clusters_count,
                next_free_cluster: a.volume.next_free_cluster,
                ..volume
            })
            &&& volume.free_clusters_count is None <==> a.volume.free_clusters_count is None
            &&& volume.free_clusters_count matches Some(count) ==> a.volume.free_clusters_count->0
                + 1 == count
            &&& a.volume.next_free_cluster matches Some(hint) ==> {
                &&& 2 <= hint.0 <= volume.cluster_count + 1
                &&& word_of(volume, a.disk, hint) == 0
                &&& search is Done && a.cluster.0 <= k.0 < hint.0 ==> word_of(volume, a.disk, k)
                    != 0
                &&& search is Done && hint.0 < a.cluster.0 && (2 <= k.0 < hint.0 || a.cluster.0
                    <= k.0 <= volume.cluster_count + 1) ==> word_of(volume, a.disk, k) != 0
                &&& search is Wrapped && 2 <= k.0 < hint.0 ==> word_of(volume, a.disk, k) != 0
                &&& search !is Lost
            }
            &&& search is Done && a.volume.next_free_cluster is None && 2 <= k.0
                <= volume.cluster_count + 1 ==> word_of(volume, a.disk, k) != 0
        }),
{
    let end = volume.cluster_count + 2;
    let a = volume.allocation(disk, prev, false, search)->0;
    volume.lemma_first_free(disk, 2, end);
    volume.lemma_first_free(disk, volume.search_start(), end);
    volume.lemma_first_free(a.disk, 2, end);
    volume.lemma_first_free(a.disk, a.cluster.0 as int, end);
    law_entry_is_its_word(volume, a.disk, k);
    assert(volume.entry(a.disk, ClusterId(k.0)) == word_of(volume, a.disk, k));
    if let Some(hint) = a.volume.next_free_cluster {
        law_entry_is_its_word(volume, a.disk, hint);
    }
}

/// A cluster that is to be blank is: every byte of every one of its blocks is zero,
/// and no other block is written but those of the table.
pub proof fn law_blank_cluster_is_blank(
    volume: FatVolume,
    disk: Disk,
    prev: Option<ClusterId>,
    search: HintSearch,
    block: u32,
)
    requires
        volume.allocation_in_reach(disk, prev, true),
        volume.allocation(disk, prev, true, search) is Some,
    ensures
        ({
            let blank = volume.allocation(disk, prev, true, search)->0;
            let plain = volume.allocation(disk, prev, false, search)->0;
            let first = volume.block_of(blank.cluster);
            &&& volume.allocation(disk, prev, false, search) is Some
            &&& blank.cluster == plain.cluster
            &&& blank.volume == plain.volume
            &&& if first <= block < first + volume.blocks_per_cluster {
                blank.disk[block] == Seq::new(512, |i: int| 0u8)
            } else {
                blank.disk[block] == plain.disk[block]
            }
        }),
{
    let plain = volume.allocation(disk, prev, false, search)->0;
    law_zeroed(
        plain.disk,
        volume.block_of(plain.cluster),
        volume.blocks_per_cluster as nat,
        block,
    );
}

/// Where a chain was freed, each of its clusters counts as free again, and the next
/// search begins no higher than at the first of them, nor higher than it would have.
pub proof fn law_freed_clusters_are_taken_note_of(
    volume: FatVolume,
    next: ClusterId,
    freed: nat,
)
    requires
        volume.free_clusters_count matches Some(count) ==> count + freed <= u32::MAX,
    ensures
        ({
            let after = volume.after_freeing(next, freed);
            &&& after == (FatVolume {
                free_clusters_count: after.free_clusters_count,
                next_free_cluster: after.next_free_cluster,
                ..volume
            })
            &&& volume.free_clusters_count is None <==> after.free_clusters_count is None
            &&& volume.free_clusters_count matches Some(count) ==> after.free_clusters_count->0
                == count + freed
            &&& after.next_free_cluster is Some
            &&& (after.next_free_cluster->0).0 <= next.0
            &&& after.next_free_cluster == Some(next) || after.next_free_cluster
                == volume.next_free_cluster
            &&& volume.next_free_cluster matches Some(hint) ==> (
            after.next_free_cluster->0).0 <= hint.0
        }),
{
}

/// Where a cluster was handed back, it counts as free again, as far as that can be
/// counted, and the next search begins at it.
pub proof fn law_released_cluster_is_taken_note_of(volume: FatVolume, c: ClusterId)
    ensures
        ({
            let after = volume.after_release(c);
            &&& after == (FatVolume {
                free_clusters_count: after.free_clusters_count,
                next_free_cluster: Some(c),
                ..volume
            })
            &&& volume.free_clusters_count is None <==> after.free_clusters_count is None
            &&& volume.free_clusters_count matches Some(count) ==> after.free_clusters_count->0 == (
            if count < u32::MAX {
                count + 1
            } else {
                u32::MAX as int
            })
        }),
{
}

/// A cluster that was freed reads as free, whatever the table said of it.
pub proof fn law_freed_word_is_zero(volume: FatVolume, disk: Disk, c: ClusterId)
    requires
        volume.entries_in_reach(c),
        volume.with_entry(disk, c, ClusterId(0))[volume.entry_block(c) as u32].len() == 512,
    ensures
        word_of(volume, volume.with_entry(disk, c, ClusterId(0)), c) == 0,
{
    lemma_entry_place(volume, c);
    let own = disk[volume.entry_block(c) as u32];
    let at = volume.entry_offset(c);
    let set = volume.entry_set(own, at, ClusterId(0));
    assert(volume.with_entry(disk, c, ClusterId(0))[volume.entry_block(c) as u32] == set);
    assert(set.len() == own.len());
    lemma_entry_bytes(volume, own, c, ClusterId(0), at);
    lemma_entry_bytes(volume, own, c, ClusterId(0), at + 1);
    if volume.fat_specific_info is Fat32 {
        lemma_entry_bytes(volume, own, c, ClusterId(0), at + 2);
        lemma_entry_bytes(volume, own, c, ClusterId(0), at + 3);
    }
}

} // verus!
