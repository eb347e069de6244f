//! Volumes whose parts are where they should be.

use crate::allocation::zeroed;
use crate::block::Disk;
use crate::entry::ClusterId;
use crate::laws::{
    is_reference, law_blocks_stay_whole, law_claim_leaves_others, law_claim_links, law_zeroed,
    tables_apart, whole_blocks,
};
use crate::table::Link;
use crate::volume::{FatSpecificInfo, FatVolume};
use vstd::arithmetic::mul::lemma_mul_inequality;
use vstd::prelude::*;

verus! {

impl FatVolume {
    /// Is `c` one of the clusters of the volume?
    pub open spec fn in_volume(self, c: ClusterId) -> bool {
        2 <= c.0 < self.end_cluster()
    }

    /// How many blocks of a table hold the entries of the clusters of the volume.
    pub open spec fn table_blocks(self) -> int {
        self.entry_position(ClusterId((self.end_cluster() - 1) as u32)) / 512 + 1
    }

    /// The first block behind the tables. Relative to start of partition.
    pub open spec fn behind_tables(self) -> int {
        match self.fat_specific_info {
            FatSpecificInfo::Fat16(info) => info.first_root_dir_block.0 as int,
            FatSpecificInfo::Fat32(_) => self.first_data_block.0 as int,
        }
    }

    /// Do the parts of the volume stand one behind the other: the tables, the
    /// region of the root directory where there is one, and the clusters? And
    /// can the table refer to each of these clusters?
    pub open spec fn laid_out(self) -> bool {
        &&& self.blocks_per_cluster >= 1
        &&& self.end_cluster() <= match self.fat_specific_info {
            FatSpecificInfo::Fat16(_) => 0xFFF7int,
            FatSpecificInfo::Fat32(_) => 0x0FFF_FFF7,
        }
        &&& self.fat_start.0 + self.table_blocks() <= self.behind_tables()
        &&& self.second_fat_start matches Some(second) ==> {
            &&& self.fat_start.0 + self.table_blocks() <= second.0
            &&& second.0 + self.table_blocks() <= self.behind_tables()
        }
        &&& self.behind_tables() + self.root_blocks() <= self.first_data_block.0
        &&& self.lba_start.0 + self.first_data_block.0 + self.cluster_count
            * self.blocks_per_cluster <= u32::MAX
    }

    /// Is `c` a cluster of the volume that is in use?
    pub open spec fn in_use(self, disk: Disk, c: ClusterId) -> bool {
        self.in_volume(c) && self.entry(disk, c) != 0
    }

    /// Does every cluster that is in use lead to one that is in use, or else
    /// nowhere?
    pub open spec fn sound_table(self, disk: Disk) -> bool {
        forall|c: ClusterId| #[trigger]
            self.in_use(disk, c) ==> match self.link(disk, c) {
                Link::Next(next) => self.in_use(disk, next),
                _ => true,
            }
    }

    /// Is this a block of the region of the root directory, or of a cluster that
    /// is in use?
    pub open spec fn holds_data(self, disk: Disk, block: int) -> bool {
        ||| self.lba_start.0 + self.behind_tables() <= block < self.lba_start.0
            + self.first_data_block.0
        ||| exists|c: ClusterId| #[trigger]
            self.in_use(disk, c) && self.block_of(c) <= block < self.block_of(c)
                + self.blocks_per_cluster
    }

    /// Does the directory that begins in `dir` begin in the region of the root
    /// directory, or in a cluster that is in use?
    pub open spec fn is_directory_start(self, disk: Disk, dir: ClusterId) -> bool {
        self.is_fixed_root(dir) || self.in_use(disk, self.resolved(dir))
    }

    /// Where the entry of a cluster of the volume stands.
    pub proof fn lemma_entry_place(self, c: ClusterId)
        requires
            self.laid_out(),
            self.in_volume(c),
        ensures
            c.0 <= u32::MAX / 4,
            self.entries_in_reach(c),
            is_reference(self, c),
            self.lba_start.0 + self.fat_start.0 <= self.entry_block(c) < self.lba_start.0
                + self.behind_tables(),
            self.mirror_block(c) matches Some(block) ==> block < self.lba_start.0
                + self.behind_tables(),
    {
    }

    /// The tables do not get into each other's way.
    pub proof fn lemma_tables_apart(self, a: ClusterId, b: ClusterId)
        requires
            self.laid_out(),
            self.in_volume(a),
            self.in_volume(b),
        ensures
            tables_apart(self, a, b),
    {
    }

    /// Where the blocks of a cluster of the volume stand.
    pub proof fn lemma_cluster_place(self, c: ClusterId)
        requires
            self.laid_out(),
            self.in_volume(c),
        ensures
            self.run_in_reach(c),
            self.resolved(c) == c,
            !self.is_fixed_root(c),
            self.lba_start.0 + self.first_data_block.0 <= self.block_of(c),
    {
        let bpc = self.blocks_per_cluster as int;
        lemma_mul_inequality(c.0 - 1, self.cluster_count as int, bpc);
        lemma_mul_inequality(0, c.0 - 2, bpc);
        assert((c.0 - 1) * bpc == (c.0 - 2) * bpc + bpc) by (nonlinear_arith);
    }
}

impl FatVolume {
    /// Two clusters have no block in common.
    pub proof fn lemma_clusters_apart(self, a: ClusterId, b: ClusterId)
        requires
            self.laid_out(),
            self.in_volume(a),
            self.in_volume(b),
            a != b,
        ensures
            self.block_of(a) + self.blocks_per_cluster <= self.block_of(b) || self.block_of(b)
                + self.blocks_per_cluster <= self.block_of(a),
    {
        let bpc = self.blocks_per_cluster as int;
        self.lemma_cluster_place(a);
        self.lemma_cluster_place(b);
        if a.0 < b.0 {
            lemma_mul_inequality(a.0 - 1, b.0 - 2, bpc);
            assert((a.0 - 1) * bpc == (a.0 - 2) * bpc + bpc) by (nonlinear_arith);
        } else {
            lemma_mul_inequality(b.0 - 1, a.0 - 2, bpc);
            assert((b.0 - 1) * bpc == (b.0 - 2) * bpc + bpc) by (nonlinear_arith);
        }
    }

    /// A cluster that a chain was made longer by: what the table says then, and
    /// what stays.
    pub proof fn lemma_growth(self, disk: Disk, last: ClusterId, new: ClusterId)
        requires
            self.laid_out(),
            whole_blocks(disk),
            self.sound_table(disk),
            self.in_use(disk, last),
            self.link(disk, last) == Link::End,
            self.in_volume(new),
            self.entry(disk, new) == 0,
        ensures
            ({
                let after = zeroed(
                    self.with_claim(disk, Some(last), new),
                    self.block_of(new),
                    self.blocks_per_cluster as nat,
                );
                &&& whole_blocks(after)
                &&& self.sound_table(after)
                &&& self.link(after, last) == Link::Next(new)
                &&& self.link(after, new) == Link::End
                &&& self.in_use(after, new)
                &&& forall|c: ClusterId| #[trigger]
                    self.in_use(disk, c) ==> self.in_use(after, c) && (c != last ==> self.link(
                        after,
                        c,
                    ) == self.link(disk, c))
                &&& forall|block: u32|
                    self.holds_data(disk, block as int) ==> #[trigger] after[block] == disk[block]
            }),
    {
        let claimed = self.with_claim(disk, Some(last), new);
        let start = self.block_of(new);
        let n = self.blocks_per_cluster as nat;
        let after = zeroed(claimed, start, n);
        let end = ClusterId(ClusterId::END_OF_FILE);
        self.lemma_entry_place(last);
        self.lemma_entry_place(new);
        self.lemma_cluster_place(new);
        self.lemma_tables_apart(last, new);
        law_claim_links(self, disk, Some(last), new);
        law_blocks_stay_whole(self, disk, new, end);
        law_blocks_stay_whole(self, self.with_entry(disk, new, end), last, new);
        assert forall|i: u32| (#[trigger] after[i]).len() == 512 by {
            law_zeroed(claimed, start, n, i);
        }
        assert forall|c: ClusterId| #[trigger] self.in_volume(c) implies self.entry(after, c)
            == self.entry(claimed, c) by {
            self.lemma_entry_place(c);
            law_zeroed(claimed, start, n, self.entry_block(c) as u32);
        }
        assert forall|c: ClusterId| #[trigger] self.in_volume(c) && c != last && c
            != new implies self.entry(after, c) == self.entry(disk, c) by {
            self.lemma_entry_place(c);
            self.lemma_tables_apart(new, c);
            self.lemma_tables_apart(last, c);
            law_claim_leaves_others(self, disk, Some(last), new, c);
        }
        assert(self.in_volume(last) && self.in_volume(new));
        assert forall|c: ClusterId| #[trigger] self.in_use(disk, c) implies self.in_use(after, c)
            && (c != last ==> self.link(after, c) == self.link(disk, c)) by {
            assert(self.in_volume(c));
        }
        assert forall|c: ClusterId| #[trigger] self.in_use(after, c) implies match self.link(
            after,
            c,
        ) {
            Link::Next(next) => self.in_use(after, next),
            _ => true,
        } by {
            assert(self.in_volume(c));
            if c != last && c != new {
                assert(self.in_use(disk, c));
            }
        }
        assert forall|block: u32| self.holds_data(disk, block as int) implies #[trigger] after[block]
            == disk[block] by {
            law_zeroed(claimed, start, n, block);
            if !(self.lba_start.0 + self.behind_tables() <= block < self.lba_start.0
                + self.first_data_block.0) {
                let c = choose|c: ClusterId| #[trigger]
                    self.in_use(disk, c) && self.block_of(c) <= block < self.block_of(c)
                        + self.blocks_per_cluster;
                self.lemma_clusters_apart(c, new);
                self.lemma_cluster_place(c);
            }
        }
    }
}

} // verus!
