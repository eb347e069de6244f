//! What opening a volume tells of it, byte by byte.

use crate::block::{BlockCache, BlockCount, BlockDevice, BlockIdx, Disk};
use crate::boot::{opened, opens, Boot, VolumeType};
use crate::bytes::{le16, le32};
use crate::error::Error;
use crate::volume::{FatSpecificInfo, FatVolume};
use vstd::prelude::*;

verus! {

/// How many blocks a boot sector says that the volume has: there is a count of 16
/// bits, and one of 32 bits for volumes that are too large for that.
pub open spec fn counted_blocks(b: Seq<u8>) -> int {
    if b[19] == 0 && b[20] == 0 {
        b[32] + 0x100 * b[33] + 0x1_0000 * b[34] + 0x100_0000 * b[35]
    } else {
        b[19] + 0x100 * b[20]
    }
}

/// How many blocks a boot sector says that each table has, in the same way.
pub open spec fn counted_table_blocks(b: Seq<u8>) -> int {
    if b[22] == 0 && b[23] == 0 {
        b[36] + 0x100 * b[37] + 0x1_0000 * b[38] + 0x100_0000 * b[39]
    } else {
        b[22] + 0x100 * b[23]
    }
}

/// How many blocks the entries of the root directory fill, by a boot sector.
pub open spec fn counted_root_blocks(b: Seq<u8>) -> int {
    ((b[17] + 0x100 * b[18]) * 32 + 511) / 512
}

/// How many blocks come before the clusters, by a boot sector.
pub open spec fn counted_front_blocks(b: Seq<u8>) -> int {
    b[14] + 0x100 * b[15] + b[16] * counted_table_blocks(b) + counted_root_blocks(b)
}

/// Do so many clusters, and no more, fit between the blocks that come before them
/// and the end of the volume?
pub open spec fn clusters_fill(b: Seq<u8>, clusters: int) -> bool {
    let rest = counted_blocks(b) - counted_front_blocks(b) - clusters * b[13];
    0 <= rest < b[13]
}

/// Does an info sector have the three marks by which it is known: `RRaA`, `rrAa`, and
/// the one at its end?
pub open spec fn has_info_marks(b: Seq<u8>) -> bool {
    &&& b[0] == 0x52 && b[1] == 0x52 && b[2] == 0x61 && b[3] == 0x41
    &&& b[484] == 0x72 && b[485] == 0x72 && b[486] == 0x41 && b[487] == 0x61
    &&& b[508] == 0 && b[509] == 0 && b[510] == 0x55 && b[511] == 0xAA
}

/// There is one number of clusters that fill a volume.
proof fn lemma_clusters_fill(b: Seq<u8>, clusters: int)
    requires
        b[13] > 0,
        clusters_fill(b, clusters),
    ensures
        clusters == (counted_blocks(b) - counted_front_blocks(b)) / (b[13] as int),
{
    let space = counted_blocks(b) - counted_front_blocks(b);
    let size = b[13] as int;
    vstd::arithmetic::div_mod::lemma_fundamental_div_mod_converse(
        space,
        size,
        clusters,
        space - clusters * size,
    );
}

/// The number of clusters fills the volume.
proof fn lemma_division_fills(b: Seq<u8>)
    requires
        b[13] > 0,
    ensures
        clusters_fill(b, (counted_blocks(b) - counted_front_blocks(b)) / (b[13] as int)),
{
    let space = counted_blocks(b) - counted_front_blocks(b);
    let size = b[13] as int;
    vstd::arithmetic::div_mod::lemma_fundamental_div_mod(space, size);
    vstd::arithmetic::mul::lemma_mul_is_commutative(size, space / size);
}

/// What is counted in a boot sector is what the volume is described by.
proof fn lemma_counted(b: Seq<u8>)
    ensures
        ({
            let boot = Boot { bytes: b };
            &&& boot.blocks() == counted_blocks(b)
            &&& boot.fat_blocks() == counted_table_blocks(b)
            &&& boot.root_blocks() == counted_root_blocks(b)
            &&& boot.data_start() == counted_front_blocks(b)
        }),
{
}

/// The volume that was opened is the one that the bytes of its boot sector describe:
/// where its tables, its root directory and its clusters begin, and how many
/// clusters there are. As many are counted as fit behind what comes before them,
/// whichever of the two block counts is used; and their number alone tells the kinds
/// of volume apart.
pub proof fn law_opened_volume_fills_its_blocks<E>(
    disk: Disk,
    lba_start: BlockIdx,
    num_blocks: BlockCount,
    volume: FatVolume,
)
    requires
        opened::<E>(disk, lba_start, num_blocks, Ok(VolumeType::Fat(volume))),
    ensures
        ({
            let b = disk[lba_start.0];
            let reserved = b[14] + 0x100 * b[15];
            &&& volume.lba_start == lba_start
            &&& volume.num_blocks == num_blocks
            &&& b[510] == 0x55 && b[511] == 0xAA
            &&& volume.blocks_per_cluster == b[13] && b[13] > 0
            &&& clusters_fill(b, volume.cluster_count as int)
            &&& volume.cluster_count >= 4085
            &&& volume.cluster_count < 65525 <==> volume.fat_specific_info is Fat16
            &&& volume.cluster_count < 65525 <==> volume.fat_type() is Fat16
            &&& volume.fat_start.0 == reserved
            &&& volume.second_fat_start is Some <==> b[16] == 2
            &&& volume.second_fat_start matches Some(second) ==> second.0 == reserved
                + counted_table_blocks(b)
            &&& volume.fat_specific_info matches FatSpecificInfo::Fat16(info) ==> {
                &&& b[11] == 0 && b[12] == 2
                &&& volume.first_data_block.0 == counted_front_blocks(b)
                &&& info.first_root_dir_block.0 == counted_front_blocks(b) - counted_root_blocks(b)
                &&& info.root_entries_count == b[17] + 0x100 * b[18]
                &&& volume.name.contents@ == b.subrange(43, 54)
                &&& volume.free_clusters_count is None
                &&& volume.next_free_cluster is None
            }
            &&& volume.fat_specific_info matches FatSpecificInfo::Fat32(info) ==> {
                &&& b[42] == 0 && b[43] == 0
                &&& volume.first_data_block.0 == counted_front_blocks(b) - counted_root_blocks(b)
                &&& info.first_root_dir_cluster.0 == b[44] + 0x100 * b[45] + 0x1_0000 * b[46]
                    + 0x100_0000 * b[47]
                &&& info.info_location.0 == lba_start.0 + b[48] + 0x100 * b[49]
                &&& volume.name.contents@ == b.subrange(71, 82)
            }
        }),
{
    let b = disk[lba_start.0];
    lemma_counted(b);
    lemma_division_fills(b);
}

/// What is known of the free clusters of a FAT32 volume is what its info sector
/// says: a count and a place to look at, each of which may be left open. A place
/// that is no cluster counts as left open.
pub proof fn law_opened_volume_knows_its_info_sector<E>(
    disk: Disk,
    lba_start: BlockIdx,
    num_blocks: BlockCount,
    volume: FatVolume,
)
    requires
        opened::<E>(disk, lba_start, num_blocks, Ok(VolumeType::Fat(volume))),
    ensures
        volume.fat_specific_info matches FatSpecificInfo::Fat32(info) ==> {
            let b = disk[info.info_location.0];
            let count = b[488] + 0x100 * b[489] + 0x1_0000 * b[490] + 0x100_0000 * b[491];
            let next = b[492] + 0x100 * b[493] + 0x1_0000 * b[494] + 0x100_0000 * b[495];
            &&& has_info_marks(b)
            &&& volume.free_clusters_count is None <==> count == 0xFFFF_FFFF
            &&& volume.free_clusters_count matches Some(n) ==> n == count
            &&& volume.next_free_cluster is None <==> next < 2 || next == 0xFFFF_FFFF
            &&& volume.next_free_cluster matches Some(c) ==> c.0 == next
        },
{
    if let FatSpecificInfo::Fat32(info) = volume.fat_specific_info {
        let b = disk[info.info_location.0];
        lemma_le32_is(b, 0, 0x52, 0x52, 0x61, 0x41);
        lemma_le32_is(b, 484, 0x72, 0x72, 0x41, 0x61);
        lemma_le32_is(b, 508, 0x00, 0x00, 0x55, 0xAA);
    }
}

/// Four bytes make up a number in one way.
proof fn lemma_le32_is(b: Seq<u8>, at: int, w: u8, x: u8, y: u8, z: u8)
    ensures
        le32(b, at) == w + 0x100 * x + 0x1_0000 * y + 0x100_0000 * z <==> b[at] == w && b[at + 1]
            == x && b[at + 2] == y && b[at + 3] == z,
{
}

/// A boot sector is refused for one of six reasons, and for no other: without any
/// of them, the volume is opened. That does not depend on which of the two block
/// counts is used.
pub proof fn law_good_boot_sectors_are_opened<E>(
    disk: Disk,
    lba_start: BlockIdx,
    num_blocks: BlockCount,
    result: Result<VolumeType, Error<E>>,
    clusters: int,
)
    requires
        opened(disk, lba_start, num_blocks, result),
        disk[lba_start.0][510] == 0x55,
        disk[lba_start.0][511] == 0xAA,
        disk[lba_start.0][13] > 0,
        clusters_fill(disk[lba_start.0], clusters),
        clusters >= 4085,
    ensures
        ({
            let b = disk[lba_start.0];
            let info = disk[(lba_start.0 + b[48] + 0x100 * b[49]) as u32];
            &&& clusters < 65525 && b[11] + 0x100 * b[12] == 512 ==> result is Ok
            &&& clusters < 65525 && b[11] + 0x100 * b[12] != 512 ==> result == Err::<
                VolumeType,
                Error<E>,
            >(Error::BadBlockSize((b[11] + 0x100 * b[12]) as u16))
            &&& clusters >= 65525 && (b[42] != 0 || b[43] != 0) ==> result is Err
                && result->Err_0 is FormatError
            &&& clusters >= 65525 && b[42] == 0 && b[43] == 0 ==> {
                &&& has_info_marks(info) ==> result is Ok
                &&& !has_info_marks(info) ==> result is Err && result->Err_0 is FormatError
            }
        }),
{
    let b = disk[lba_start.0];
    lemma_counted(b);
    lemma_clusters_fill(b, clusters);
    assert(clusters * b[13] >= 0) by (nonlinear_arith)
        requires
            clusters >= 0,
    ;
    let info = disk[(lba_start.0 + b[48] + 0x100 * b[49]) as u32];
    lemma_le32_is(info, 0, 0x52, 0x52, 0x61, 0x41);
    lemma_le32_is(info, 484, 0x72, 0x72, 0x41, 0x61);
    lemma_le32_is(info, 508, 0x00, 0x00, 0x55, 0xAA);
}

/// A boot sector that cannot be used is refused: one without its mark, one that
/// gives a cluster no blocks, one whose clusters would begin behind the end of the
/// volume, and one with too few clusters.
pub proof fn law_bad_boot_sectors_are_refused<E>(
    disk: Disk,
    lba_start: BlockIdx,
    num_blocks: BlockCount,
    result: Result<VolumeType, Error<E>>,
)
    requires
        opened(disk, lba_start, num_blocks, result),
        ({
            let b = disk[lba_start.0];
            ||| b[510] != 0x55 || b[511] != 0xAA
            ||| b[13] == 0
            ||| counted_front_blocks(b) > counted_blocks(b)
            ||| exists|clusters: int| #[trigger] clusters_fill(b, clusters) && clusters < 4085
        }),
    ensures
        result matches Err(Error::FormatError(_)),
{
    let b = disk[lba_start.0];
    lemma_counted(b);
    assert forall|clusters: int| #[trigger] clusters_fill(b, clusters) && b[13] > 0 implies clusters
        == (counted_blocks(b) - counted_front_blocks(b)) / (b[13] as int) by {
        lemma_clusters_fill(b, clusters);
    }
}

/// Is this a refusal with these words?
pub open spec fn refuses<E>(result: Result<VolumeType, Error<E>>, words: Seq<char>) -> bool {
    result matches Err(Error::FormatError(said)) && said@ == words
}

/// A refusal says what is wrong, and says the first thing that is.
pub proof fn law_refusals_say_why<E>(
    disk: Disk,
    lba_start: BlockIdx,
    num_blocks: BlockCount,
    result: Result<VolumeType, Error<E>>,
    clusters: int,
)
    requires
        opened(disk, lba_start, num_blocks, result),
    ensures
        ({
            let b = disk[lba_start.0];
            let info = disk[(lba_start.0 + b[48] + 0x100 * b[49]) as u32];
            let marked = b[510] == 0x55 && b[511] == 0xAA;
            let counted = marked && b[13] > 0 && clusters_fill(b, clusters);
            let large = counted && clusters >= 65525 && b[42] == 0 && b[43] == 0;
            let led = info[0] == 0x52 && info[1] == 0x52 && info[2] == 0x61 && info[3] == 0x41;
            let structured = info[484] == 0x72 && info[485] == 0x72 && info[486] == 0x41
                && info[487] == 0x61;
            &&& !marked ==> refuses(result, "Bad BPB footer"@)
            &&& marked && b[13] == 0 ==> refuses(result, "Bad cluster size"@)
            &&& marked && b[13] > 0 && counted_front_blocks(b) > counted_blocks(b) ==> refuses(
                result,
                "Bad volume size"@,
            )
            &&& counted && 0 <= clusters < 4085 ==> refuses(result, "FAT12 is unsupported"@)
            &&& counted && clusters >= 65525 && (b[42] != 0 || b[43] != 0) ==> refuses(
                result,
                "Invalid FAT format"@,
            )
            &&& large && !led ==> refuses(result, "Bad lead signature on InfoSector"@)
            &&& large && led && !structured ==> refuses(
                result,
                "Bad struc signature on InfoSector"@,
            )
            &&& large && led && structured && !has_info_marks(info) ==> refuses(
                result,
                "Bad trail signature on InfoSector"@,
            )
        }),
{
    let b = disk[lba_start.0];
    let info = disk[(lba_start.0 + b[48] + 0x100 * b[49]) as u32];
    lemma_counted(b);
    if b[13] > 0 && clusters_fill(b, clusters) && clusters >= 0 {
        lemma_clusters_fill(b, clusters);
        assert(clusters * b[13] >= 0) by (nonlinear_arith)
            requires
                clusters >= 0,
        ;
    }
    lemma_le32_is(info, 0, 0x52, 0x52, 0x61, 0x41);
    lemma_le32_is(info, 484, 0x72, 0x72, 0x41, 0x61);
    lemma_le32_is(info, 508, 0x00, 0x00, 0x55, 0xAA);
}

/// The two block counts of a boot sector serve the same end: where a volume is small
/// enough for the one of 16 bits, it may as well be given in the one of 32 bits, and
/// the same volume is opened.
pub proof fn law_either_block_count_serves<E>(
    disk: Disk,
    other: Disk,
    lba_start: BlockIdx,
    num_blocks: BlockCount,
    volume: FatVolume,
    result: Result<VolumeType, Error<E>>,
)
    requires
        opened::<E>(disk, lba_start, num_blocks, Ok(VolumeType::Fat(volume))),
        opened::<E>(other, lba_start, num_blocks, result),
        forall|block: u32| block != lba_start.0 ==> #[trigger] other[block] == disk[block],
        disk[lba_start.0].len() == 512,
        other[lba_start.0].len() == 512,
        forall|i: int|
            0 <= i < 512 && !(19 <= i < 21) && !(32 <= i < 36)
                ==> #[trigger] other[lba_start.0][i] == disk[lba_start.0][i],
        le16(disk[lba_start.0], 19) != 0,
        le16(other[lba_start.0], 19) == 0,
        le32(other[lba_start.0], 32) == le16(disk[lba_start.0], 19),
        volume.fat_specific_info matches FatSpecificInfo::Fat32(info) ==> info.info_location.0
            != lba_start.0,
    ensures
        result matches Ok(VolumeType::Fat(same)) && same.name.contents@ == volume.name.contents@
            && same == (FatVolume { name: same.name, ..volume }),
{
    let b = disk[lba_start.0];
    let o = other[lba_start.0];
    lemma_counted(b);
    lemma_counted(o);
    assert(counted_blocks(o) == counted_blocks(b));
    assert(counted_front_blocks(o) == counted_front_blocks(b));
    assert(o.subrange(43, 54) =~= b.subrange(43, 54));
    assert(o.subrange(71, 82) =~= b.subrange(71, 82));
}

/// Opening a volume changes nothing. Where the device reports an error, that is the
/// outcome; else the outcome depends on the disk alone.
pub proof fn law_opening_depends_on_the_disk<D: BlockDevice>(
    before: BlockCache<D>,
    lba_start: BlockIdx,
    num_blocks: BlockCount,
    after: BlockCache<D>,
    result: Result<VolumeType, Error<D::Error>>,
)
    requires
        opens(before, lba_start, num_blocks, after, result),
    ensures
        after.fault_list() == before.fault_list() ==> opened(
            before.disk(),
            lba_start,
            num_blocks,
            result,
        ),
        after.fault_list() != before.fault_list() ==> result is Err && result->Err_0
            is DeviceError && after.fault_list() == before.fault_list().push(
            result->Err_0->DeviceError_0,
        ),
{
}

} // verus!
