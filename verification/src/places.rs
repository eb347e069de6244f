//! Which slots a directory has.

use crate::block::{BlockIdx, Disk};
use crate::directory::{end_link, slot_place, Cursor, DirEnd, DirectorySlot, Step};
use crate::entry::ClusterId;
use crate::table::Link;
use crate::volume::{FatSpecificInfo, FatVolume};
use vstd::prelude::*;

verus! {

/// The first `n` slots from a block on: sixteen to a block, of 32 bytes each.
pub open spec fn run_slots(first: int, n: nat) -> Seq<DirectorySlot> {
    Seq::new(
        n,
        |i: int|
            DirectorySlot {
                block: BlockIdx((first + i / 16) as u32),
                offset: (i % 16 * 32) as u32,
            },
    )
}

/// The block that a cluster begins in: the one numbered 2 stands where the data
/// begins.
pub open spec fn cluster_block(volume: FatVolume, c: ClusterId) -> int {
    volume.lba_start.0 + volume.first_data_block.0 + (c.0 - 2) * volume.blocks_per_cluster
}

/// All the slots of these clusters, one cluster after the other.
pub open spec fn chain_slots(volume: FatVolume, chain: Seq<ClusterId>) -> Seq<DirectorySlot>
    decreases chain.len(),
{
    if chain.len() == 0 {
        Seq::empty()
    } else {
        chain_slots(volume, chain.drop_last()) + run_slots(
            cluster_block(volume, chain.last()),
            (volume.blocks_per_cluster * 16) as nat,
        )
    }
}

/// Are these the clusters of a chain, one leading to the next, and does the last one
/// lead to `end`; and do all numbers that have to do with them fit?
pub open spec fn is_run_of_clusters(
    volume: FatVolume,
    disk: Disk,
    chain: Seq<ClusterId>,
    end: Link,
) -> bool {
    &&& chain.len() > 0
    &&& end !is Next
    &&& forall|i: int|
        0 <= i < chain.len() ==> {
            &&& 2 <= (#[trigger] chain[i]).0 <= u32::MAX / 4
            &&& volume.entry_in_reach(chain[i])
            &&& cluster_block(volume, chain[i]) + volume.blocks_per_cluster <= u32::MAX
        }
    &&& forall|i: int|
        0 <= i < chain.len() - 1 ==> volume.link(disk, #[trigger] chain[i]) == Link::Next(
            chain[i + 1],
        )
    &&& volume.link(disk, chain.last()) == end
}

impl FatVolume {
    /// A walk comes by the slots of the run that it has come to.
    proof fn lemma_run(self, disk: Disk, start: Cursor, k: nat, i: nat)
        requires
            self.walked(disk, start, k) matches Some(w) && {
                &&& w.at.slot == 0
                &&& w.at.blocks <= 0xFFFF
                &&& i <= w.at.blocks * 16
            },
        ensures
            ({
                let w = self.walked(disk, start, k)->0;
                self.walked(disk, start, k + i) matches Some(v) && {
                    &&& v.at == (Cursor { slot: i as u32, ..w.at })
                    &&& v.slots == w.slots + run_slots(w.at.first_block.0 as int, i)
                }
            }),
        decreases i,
    {
        let w = self.walked(disk, start, k)->0;
        if i > 0 {
            self.lemma_run(disk, start, k, (i - 1) as nat);
            let before = self.walked(disk, start, (k + i - 1) as nat)->0;
            let slot = slot_place(w.at.first_block, (i - 1) as u32);
            assert(before.slots.push(slot) =~= w.slots + run_slots(
                w.at.first_block.0 as int,
                i,
            ));
        } else {
            assert(w.slots + run_slots(w.at.first_block.0 as int, 0) =~= w.slots);
        }
    }

    /// A walk comes to the cluster number `j` of a chain.
    proof fn lemma_walk_to_cluster(
        self,
        disk: Disk,
        chain: Seq<ClusterId>,
        end: Link,
        start: Cursor,
        j: int,
    ) -> (k: nat)
        requires
            is_run_of_clusters(self, disk, chain, end),
            start == self.cluster_start(chain[0]),
            0 <= j < chain.len(),
        ensures
            self.walked(disk, start, k) matches Some(w) && {
                &&& w.at == self.cluster_start(chain[j])
                &&& w.slots == chain_slots(self, chain.take(j))
            },
        decreases j,
    {
        if j == 0 {
            assert(chain.take(0) =~= Seq::empty());
            0
        } else {
            let m = self.lemma_walk_to_cluster(disk, chain, end, start, j - 1);
            let n = (self.blocks_per_cluster * 16) as nat;
            self.lemma_run(disk, start, m, n);
            let c = chain[j - 1];
            let w = self.walked(disk, start, m + n)->0;
            assert(self.link(disk, chain[j - 1]) == Link::Next(chain[j - 1 + 1]));
            assert(2 <= chain[j].0 <= u32::MAX / 4);
            assert(self.step(disk, w.at) == Step::Enter(self.cluster_start(chain[j])));
            assert(chain.take(j).drop_last() =~= chain.take(j - 1));
            assert(chain.take(j).last() == c);
            m + n + 1
        }
    }
}

/// A directory that is made of clusters has all the slots of all of them, one cluster
/// after the other, from the one that it begins in to the end of the chain. The root
/// directory of a FAT32 volume begins in the cluster that its boot sector names.
pub proof fn law_directory_has_all_slots_of_its_clusters(
    volume: FatVolume,
    disk: Disk,
    dir: ClusterId,
    chain: Seq<ClusterId>,
    end: Link,
)
    requires
        is_run_of_clusters(volume, disk, chain, end),
        match volume.fat_specific_info {
            FatSpecificInfo::Fat16(_) => dir == chain[0],
            FatSpecificInfo::Fat32(info) => if dir.0 == 0xFFFF_FFFC {
                info.first_root_dir_cluster == chain[0]
            } else {
                dir == chain[0]
            },
        },
    ensures
        volume.is_made_of(disk, dir, chain_slots(volume, chain), end),
{
    let start = volume.dir_start(dir);
    assert(2 <= chain[0].0 <= u32::MAX / 4);
    assert(start == volume.cluster_start(chain[0]));
    let last = chain.len() - 1;
    assert(2 <= chain[last].0 <= u32::MAX / 4);
    let m = volume.lemma_walk_to_cluster(disk, chain, end, start, last);
    let n = (volume.blocks_per_cluster * 16) as nat;
    volume.lemma_run(disk, start, m, n);
    let w = volume.walked(disk, start, m + n)->0;
    assert(chain.take(last) =~= chain.drop_last());
    assert(volume.step(disk, w.at) == Step::End(DirEnd::Chain(chain.last(), end)));
    assert(volume.walk_ends(disk, dir, m + n));
    assert(w.slots == chain_slots(volume, chain));
}

/// The root directory of a FAT16 volume has the slots of its region: as many as fill
/// the blocks that its entries take.
pub proof fn law_root_region_has_its_slots(volume: FatVolume, disk: Disk)
    requires
        volume.fat_specific_info matches FatSpecificInfo::Fat16(info) && volume.lba_start.0
            + info.first_root_dir_block.0 + (info.root_entries_count as int + 15) / 16 <= u32::MAX,
    ensures
        volume.fat_specific_info matches FatSpecificInfo::Fat16(info) && volume.is_made_of(
            disk,
            ClusterId(0xFFFF_FFFC),
            run_slots(
                volume.lba_start.0 + info.first_root_dir_block.0,
                ((info.root_entries_count as int + 15) / 16 * 16) as nat,
            ),
            Link::End,
        ),
{
    let dir = ClusterId(0xFFFF_FFFC);
    let start = volume.dir_start(dir);
    let info = volume.fat_specific_info->Fat16_0;
    let blocks = (info.root_entries_count as int + 15) / 16;
    assert((info.root_entries_count * 32 + 511) / 512 == blocks);
    let n = (blocks * 16) as nat;
    assert(volume.walked(disk, start, 0)->0.at == start);
    volume.lemma_run(disk, start, 0, n);
    let w = volume.walked(disk, start, n)->0;
    assert(w.slots =~= run_slots(start.first_block.0 as int, n));
    assert(volume.step(disk, w.at) == Step::End(DirEnd::Region));
    assert(volume.walk_ends(disk, dir, n));
    assert(end_link(DirEnd::Region) == Link::End);
}

/// A directory has one row of slots.
pub proof fn law_directory_has_one_row_of_slots(
    volume: FatVolume,
    disk: Disk,
    dir: ClusterId,
    a: Seq<DirectorySlot>,
    a_end: Link,
    b: Seq<DirectorySlot>,
    b_end: Link,
)
    requires
        volume.is_made_of(disk, dir, a, a_end),
        volume.is_made_of(disk, dir, b, b_end),
    ensures
        a == b,
        a_end == b_end,
{
    volume.lemma_made_of_one(disk, dir, a, a_end, b, b_end);
}

} // verus!
