//! What the results of the operations tell of the disk.

use crate::alias::{candidate, candidate_name, AliasOutcome};
use crate::alias_laws::{ends_with, law_first_free_alias_is_found};
use crate::allocation::{zeroed, Allocation, HintSearch};
use crate::block::{BlockCache, BlockDevice, Disk};
use crate::deletion::{deletes, deletion_order, with_deletions};
use crate::deletion_laws::law_deletion_marks_one_byte_of_each_slot;
use crate::directory::DirectorySlot;
use crate::entry::{ClusterId, DirEntry, EntryView};
use crate::error::Error;
use crate::iterate::Watcher;
use crate::laws::{
    all_apart, is_chain, law_claim_leaves_others, law_claim_links, law_truncation, law_zeroed,
    slot_aligned, tables_apart, whole_blocks,
};
use crate::listing::{Listing, LongNameVisitor, LongNames};
use crate::long_lookup::decided;
use crate::long_name::{lowercase, reads_as};
use crate::lookup::looks_up;
use crate::name::{short_name_of, ShortFileName};
use crate::rows::{
    all_aligned, is_live, is_named, is_unused, law_alias_is_new, law_everything_is_shown,
    law_first_bearer_is_found, law_listing_shows_each_entry_once, law_other_names_are_not_taken,
    law_short_name_is_found, law_short_name_is_missing, law_short_names_are_taken, learned_from,
    looked_at, row_bears, rows, shown_rows,
};
use crate::table::{only_reads, Link};
use crate::table_laws::{
    law_allocation_goes_by_the_hint, law_allocation_is_taken_note_of, law_entry_is_its_word,
    law_no_space_is_left_over, word_of,
};
use crate::volume::FatVolume;
use vstd::prelude::*;

verus! {

/// An operation that only reads changes nothing. Where the device reports no error,
/// the result is what the disk calls for; else it is the error of the device.
pub proof fn law_reading_is_safe<D: BlockDevice, T>(
    before: BlockCache<D>,
    after: BlockCache<D>,
    result: Result<T, Error<D::Error>>,
    expected: Result<T, Error<D::Error>>,
)
    requires
        only_reads(before, after, result, expected),
    ensures
        after.disk() == before.disk(),
        after.fault_list() == before.fault_list() ==> result == expected,
        after.fault_list() != before.fault_list() ==> result is Err && result->Err_0
            is DeviceError && after.fault_list() == before.fault_list().push(
            result->Err_0->DeviceError_0,
        ),
{
    if after.fault_list() == before.fault_list() && !(result == expected) {
        assert(before.fault_list().push(result->Err_0->DeviceError_0).len()
            == before.fault_list().len() + 1);
    }
}

/// A lookup changes nothing. Where the device reports no error, what was found is
/// given; where nothing was found, that is told apart from a chain that is broken.
pub proof fn law_lookup_tells_what_it_met<D: BlockDevice>(
    before: BlockCache<D>,
    after: BlockCache<D>,
    result: Result<DirEntry, Error<D::Error>>,
    found: Option<EntryView>,
    end: Link,
)
    requires
        looks_up(before, after, result, found, end),
    ensures
        after.disk() == before.disk(),
        after.fault_list() == before.fault_list() ==> {
            &&& end is End && found is Some ==> result is Ok && result->Ok_0@ == found->0
            &&& end is End && found is None ==> result is Err && result->Err_0 is NotFound
            &&& end is Bad ==> result is Err && result->Err_0 is BadCluster
            &&& end is Free ==> result is Err && result->Err_0 is UnterminatedFatChain
        },
        after.fault_list() != before.fault_list() ==> result is Err && result->Err_0
            is DeviceError && after.fault_list() == before.fault_list().push(
            result->Err_0->DeviceError_0,
        ),
{
}

/// The entry that is found by its short name is the first one that has that name, and
/// one is not found only where no entry has it.
pub proof fn law_first_of_that_name_is_told<D: BlockDevice>(
    volume: FatVolume,
    before: BlockCache<D>,
    dir: ClusterId,
    slots: Seq<DirectorySlot>,
    end: Link,
    n: int,
    name: Seq<u8>,
    after: BlockCache<D>,
    result: Result<DirEntry, Error<D::Error>>,
    i: int,
)
    requires
        whole_blocks(before.disk()),
        volume.is_made_of(before.disk(), dir, slots, end),
        looked_at(before.disk(), slots, n),
        0 <= i <= n,
        forall|j: int|
            0 <= j < i && is_live(before.disk(), #[trigger] slots[j]) ==> !is_named(
                before.disk(),
                slots[j],
                name,
            ),
        i < n ==> is_live(before.disk(), slots[i]) && is_named(before.disk(), slots[i], name),
        volume.finds_by_short_name(before, dir, name, after, result),
        after.fault_list() == before.fault_list(),
    ensures
        i < n ==> result is Ok && result->Ok_0@ == volume.entry_at(before.disk(), slots[i]),
        i == n && (n < slots.len() || end is End) ==> result is Err && result->Err_0 is NotFound,
        i == n && n == slots.len() && end is Bad ==> result is Err && result->Err_0
            is BadCluster,
        i == n && n == slots.len() && end is Free ==> result is Err && result->Err_0
            is UnterminatedFatChain,
{
    if i < n {
        law_short_name_is_found(volume, before.disk(), dir, slots, end, name, i);
    } else {
        law_short_name_is_missing(volume, before.disk(), dir, slots, end, n, name);
    }
    let visit = volume.short_name_lookup(before.disk(), dir, name)->0;
    law_lookup_tells_what_it_met(before, after, result, visit.state.found, visit.end);
}

/// The entry that is found by its long name is the first one that bears the very name,
/// letter by letter, and one is not found only where no entry bears it.
pub proof fn law_first_of_that_long_name_is_told<D: BlockDevice>(
    volume: FatVolume,
    before: BlockCache<D>,
    dir: ClusterId,
    slots: Seq<DirectorySlot>,
    end: Link,
    n: int,
    sought: Seq<char>,
    after: BlockCache<D>,
    result: Result<DirEntry, Error<D::Error>>,
    i: int,
)
    requires
        whole_blocks(before.disk()),
        volume.is_made_of(before.disk(), dir, slots, end),
        looked_at(before.disk(), slots, n),
        ({
            let all = rows(before.disk(), slots.take(n), Seq::empty());
            &&& 0 <= i <= all.len()
            &&& forall|j: int|
                0 <= j < i ==> !row_bears(before.disk(), #[trigger] all[j], sought, false)
            &&& i < all.len() ==> row_bears(before.disk(), all[i], sought, false)
        }),
        volume.finds_by_long_name(before, dir, sought, after, result),
        after.fault_list() == before.fault_list(),
    ensures
        ({
            let all = rows(before.disk(), slots.take(n), Seq::empty());
            &&& i < all.len() ==> result is Ok && result->Ok_0@ == volume.entry_at(
                before.disk(),
                all[i].slot,
            )
            &&& i == all.len() && (n < slots.len() || end is End) ==> result is Err
                && result->Err_0 is NotFound
            &&& i == all.len() && n == slots.len() && end is Bad ==> result is Err
                && result->Err_0 is BadCluster
            &&& i == all.len() && n == slots.len() && end is Free ==> result is Err
                && result->Err_0 is UnterminatedFatChain
        }),
{
    law_first_bearer_is_found(volume, before.disk(), dir, slots, end, n, sought, false, i);
    let visit = volume.long_name_lookup(before.disk(), dir, sought, false)->0;
    law_lookup_tells_what_it_met(before, after, result, visit.state.found, visit.end);
}

/// An allocation that succeeded claimed a cluster of the volume that was free. One that
/// failed for want of space changed nothing, and found every cluster of the volume in
/// use, from the one numbered 2 to the last one.
pub proof fn law_allocation_result<D: BlockDevice>(
    volume: FatVolume,
    before: BlockCache<D>,
    prev: Option<ClusterId>,
    zero: bool,
    after: BlockCache<D>,
    left: FatVolume,
    result: Result<ClusterId, Error<D::Error>>,
    k: ClusterId,
)
    requires
        volume.cluster_count + 2 <= u32::MAX,
        volume.next_free_cluster matches Some(hint) ==> hint.0 >= 2,
        volume.allocates(before, prev, zero, after, left, result),
    ensures
        match result {
            Ok(c) => 2 <= c.0 <= volume.cluster_count + 1 && word_of(volume, before.disk(), c) == 0,
            Err(Error::NotEnoughSpace) => {
                &&& after.disk() == before.disk()
                &&& left == volume
                &&& 2 <= k.0 <= volume.cluster_count + 1 ==> word_of(volume, before.disk(), k) != 0
            },
            Err(error) => error is DeviceError,
        },
{
    match result {
        Ok(c) => {
            let search = choose|search: HintSearch|
                (#[trigger] volume.allocation(before.disk(), prev, zero, search)) is Some && (
                volume.allocation(before.disk(), prev, zero, search)->0).cluster == c;
            law_allocation_goes_by_the_hint(volume, before.disk(), prev, zero, search, k);
        },
        Err(Error::NotEnoughSpace) => {
            if 2 <= k.0 <= volume.cluster_count + 1 && word_of(volume, before.disk(), k) == 0 {
                law_no_space_is_left_over(
                    volume,
                    before.disk(),
                    prev,
                    zero,
                    HintSearch::Done,
                    k,
                );
            }
        },
        _ => {},
    }
}

/// A cluster that was allocated is the end of a chain: of that of the cluster that it
/// was asked for, which leads to it now. What the table says of other clusters stays.
/// On request, each of its blocks is blank.
pub proof fn law_allocated_cluster_is_linked<D: BlockDevice>(
    volume: FatVolume,
    before: BlockCache<D>,
    prev: Option<ClusterId>,
    zero: bool,
    after: BlockCache<D>,
    left: FatVolume,
    c: ClusterId,
    other: ClusterId,
    block: u32,
)
    requires
        volume.laid_out(),
        whole_blocks(before.disk()),
        volume.next_free_cluster matches Some(hint) ==> hint.0 >= 2,
        volume.allocates(before, prev, zero, after, left, Ok(c)),
        prev matches Some(p) ==> 2 <= p.0 <= volume.cluster_count + 1 && p != c,
        2 <= other.0 <= volume.cluster_count + 1,
    ensures
        volume.link(after.disk(), c) == Link::End,
        prev matches Some(p) ==> volume.link(after.disk(), p) == Link::Next(c),
        other != c && prev != Some(other) ==> word_of(volume, after.disk(), other) == word_of(
            volume,
            before.disk(),
            other,
        ),
        zero && volume.block_of(c) <= block < volume.block_of(c) + volume.blocks_per_cluster
            ==> after.disk()[block] == Seq::new(512, |i: int| 0u8),
{
    let disk = before.disk();
    let search = choose|search: HintSearch|
        {
            let a = #[trigger] volume.allocation(disk, prev, zero, search);
            a is Some && (a->0).cluster == c && (a->0).disk == after.disk()
        };
    law_allocation_goes_by_the_hint(volume, disk, prev, zero, search, c);
    let claimed = volume.with_claim(disk, prev, c);
    volume.lemma_entry_place(c);
    volume.lemma_cluster_place(c);
    volume.lemma_entry_place(other);
    volume.lemma_tables_apart(c, other);
    law_zeroed(claimed, volume.block_of(c), volume.blocks_per_cluster as nat, block);
    lemma_table_stays(volume, claimed, c, c);
    lemma_table_stays(volume, claimed, c, other);
    law_entry_is_its_word(volume, after.disk(), other);
    law_entry_is_its_word(volume, disk, other);
    if let Some(p) = prev {
        volume.lemma_entry_place(p);
        volume.lemma_tables_apart(p, c);
        volume.lemma_tables_apart(p, other);
        lemma_table_stays(volume, claimed, c, p);
    }
    law_claim_links(volume, disk, prev, c);
    if other != c && prev != Some(other) {
        law_claim_leaves_others(volume, disk, prev, c, other);
    }
}

/// Filling a cluster with zeros leaves the table alone.
proof fn lemma_table_stays(volume: FatVolume, disk: Disk, c: ClusterId, other: ClusterId)
    requires
        volume.laid_out(),
        volume.in_volume(c),
        volume.in_volume(other),
    ensures
        volume.entry(
            zeroed(disk, volume.block_of(c), volume.blocks_per_cluster as nat),
            other,
        ) == volume.entry(disk, other),
{
    volume.lemma_entry_place(other);
    volume.lemma_cluster_place(c);
    law_zeroed(
        disk,
        volume.block_of(c),
        volume.blocks_per_cluster as nat,
        volume.entry_block(other) as u32,
    );
}

/// What is known of a volume after a cluster was allocated: one less is free, where
/// they are counted. Where no error was met, the next search is to begin at the first
/// cluster that is free behind the one that was taken, or at the first one of all.
pub proof fn law_allocation_is_noted<D: BlockDevice>(
    volume: FatVolume,
    before: BlockCache<D>,
    prev: Option<ClusterId>,
    after: BlockCache<D>,
    left: FatVolume,
    c: ClusterId,
    k: ClusterId,
)
    requires
        volume.cluster_count + 2 <= u32::MAX,
        volume.free_clusters_count != Some(0u32),
        volume.next_free_cluster matches Some(hint) ==> hint.0 >= 2,
        volume.allocates(before, prev, false, after, left, Ok(c)),
    ensures
        left.same_layout(volume),
        volume.free_clusters_count is None ==> left.free_clusters_count is None,
        volume.free_clusters_count matches Some(count) ==> left.free_clusters_count == Some(
            (count - 1) as u32,
        ),
        left.next_free_cluster matches Some(hint) ==> 2 <= hint.0 <= volume.cluster_count + 1
            && word_of(volume, after.disk(), hint) == 0,
        after.fault_list() == before.fault_list() ==> {
            let busy = word_of(volume, after.disk(), k) != 0;
            match left.next_free_cluster {
                None => 2 <= k.0 <= volume.cluster_count + 1 ==> busy,
                Some(hint) => if hint.0 >= c.0 {
                    c.0 <= k.0 < hint.0 ==> busy
                } else {
                    2 <= k.0 < hint.0 || c.0 <= k.0 <= volume.cluster_count + 1 ==> busy
                },
            }
        },
{
    let search = choose|search: HintSearch|
        {
            &&& after.untroubled(&before) <==> search == HintSearch::Done
            &&& #[trigger] volume.allocation(before.disk(), prev, false, search) == Some(
                (Allocation { cluster: c, volume: left, disk: after.disk() }),
            )
        };
    law_allocation_is_taken_note_of(volume, before.disk(), prev, search, k);
    assert(after.fault_list() == before.fault_list() ==> after.untroubled(&before));
}

/// Truncating a chain succeeds. Its first cluster becomes its end, each cluster behind
/// that becomes free, and what the table says of a cluster outside the chain stays. A
/// chain of one cluster stays as it is.
pub proof fn law_truncation_result<D: BlockDevice>(
    volume: FatVolume,
    before: BlockCache<D>,
    chain: Seq<ClusterId>,
    after: BlockCache<D>,
    left: FatVolume,
    result: Result<(), Error<D::Error>>,
    other: ClusterId,
)
    requires
        whole_blocks(before.disk()),
        is_chain(volume, before.disk(), chain),
        chain[0].0 >= 2,
        all_apart(volume, chain),
        volume.entry_in_reach(other),
        forall|i: int| 0 <= i < chain.len() ==> tables_apart(volume, #[trigger] chain[i], other),
        volume.free_clusters_count matches Some(count) ==> count + chain.len() <= u32::MAX,
        volume.truncates(before, chain[0], after, left, result),
        after.fault_list() == before.fault_list(),
    ensures
        result is Ok,
        volume.link(after.disk(), chain[0]) == Link::End,
        chain.skip(1).contains(other) ==> word_of(volume, after.disk(), other) == 0,
        !chain.contains(other) ==> word_of(volume, after.disk(), other) == word_of(
            volume,
            before.disk(),
            other,
        ),
        volume.free_clusters_count matches Some(count) ==> left.free_clusters_count == Some(
            (count + chain.len() - 1) as u32,
        ),
        chain.len() == 1 ==> after.disk() == before.disk() && left == volume,
        chain.len() > 1 ==> left.next_free_cluster == match volume.next_free_cluster {
            Some(hint) if hint.0 < chain[1].0 => Some(hint),
            _ => Some(chain[1]),
        },
        left.same_layout(volume),
        volume.free_clusters_count is None ==> left.free_clusters_count is None,
{
    let disk = before.disk();
    law_entry_is_its_word(volume, after.disk(), other);
    law_entry_is_its_word(volume, disk, other);
    if chain.len() > 1 {
        assert(volume.link(disk, chain[0]) == Link::Next(chain[0int + 1]));
        lemma_truncated(volume, before, chain[0], chain[1], after, left, result);
        law_truncation(volume, disk, chain, other);
    } else {
        assert(chain.last() == chain[0]);
        lemma_not_truncated(volume, before, chain[0], after, left, result);
        assert(chain.skip(1) =~= Seq::empty());
        assert(chain[0] == chain.last());
    }
}

/// What becomes of a chain of several clusters.
proof fn lemma_truncated<D: BlockDevice>(
    volume: FatVolume,
    before: BlockCache<D>,
    cluster: ClusterId,
    next: ClusterId,
    after: BlockCache<D>,
    left: FatVolume,
    result: Result<(), Error<D::Error>>,
)
    requires
        cluster.0 >= 2,
        volume.link(before.disk(), cluster) == Link::Next(next),
        volume.truncates(before, cluster, after, left, result),
        after.fault_list() == before.fault_list(),
    ensures
        ({
            let ended = volume.with_entry(
                before.disk(),
                cluster,
                ClusterId(ClusterId::END_OF_FILE),
            );
            let f = volume.freeing(ended, next)->0;
            &&& after.disk() == f.disk
            &&& left == volume.after_freeing(next, f.freed)
            &&& f.end == Link::End ==> result is Ok
        }),
{
    assert(after.untroubled(&before));
}

/// What becomes of a chain of one cluster.
proof fn lemma_not_truncated<D: BlockDevice>(
    volume: FatVolume,
    before: BlockCache<D>,
    cluster: ClusterId,
    after: BlockCache<D>,
    left: FatVolume,
    result: Result<(), Error<D::Error>>,
)
    requires
        cluster.0 >= 2,
        volume.link(before.disk(), cluster) == Link::End,
        volume.truncates(before, cluster, after, left, result),
        after.fault_list() == before.fault_list(),
    ensures
        after.disk() == before.disk(),
        left == volume,
        result is Ok,
{
    assert(after.untroubled(&before));
}

/// Where the chain is broken right behind its first cluster there is nothing to free,
/// and that is told.
pub proof fn law_broken_chain_is_not_truncated<D: BlockDevice>(
    volume: FatVolume,
    before: BlockCache<D>,
    cluster: ClusterId,
    after: BlockCache<D>,
    left: FatVolume,
    result: Result<(), Error<D::Error>>,
)
    requires
        cluster.0 >= 2,
        volume.link(before.disk(), cluster) is Bad || volume.link(before.disk(), cluster) is Free,
        volume.truncates(before, cluster, after, left, result),
        after.fault_list() == before.fault_list(),
    ensures
        after.disk() == before.disk(),
        left == volume,
        tells_end(result, volume.link(before.disk(), cluster)),
{
    assert(after.untroubled(&before));
}

/// A file that has no cluster has nothing to truncate.
pub proof fn law_nothing_to_truncate<D: BlockDevice>(
    volume: FatVolume,
    before: BlockCache<D>,
    cluster: ClusterId,
    after: BlockCache<D>,
    left: FatVolume,
    result: Result<(), Error<D::Error>>,
)
    requires
        cluster.0 == 0 || cluster.0 == 1,
        volume.truncates(before, cluster, after, left, result),
        after.fault_list() == before.fault_list(),
    ensures
        result is Ok,
        after.disk() == before.disk(),
        left == volume,
{
    assert(after.untroubled(&before));
}

/// A deletion succeeds where there is an entry of that name, unless the device reports
/// an error before the entry is gone; and where there is none, that is told, and
/// nothing changes.
pub proof fn law_deletion_result<D: BlockDevice>(
    volume: FatVolume,
    before: BlockCache<D>,
    dir: ClusterId,
    name: Seq<u8>,
    after: BlockCache<D>,
    result: Result<(), Error<D::Error>>,
)
    requires
        volume.entry_slots(before.disk(), dir, name) is Some,
        volume.removes_entry(before, dir, name, after, result),
    ensures
        ({
            let search = volume.entry_slots(before.disk(), dir, name)->0;
            &&& result is Err ==> after.disk() == before.disk()
            &&& search.found is Some && after.fault_list() == before.fault_list() ==> result is Ok
            &&& search.found is None ==> result is Err
            &&& search.found is None && search.end is End && after.fault_list()
                == before.fault_list() ==> result->Err_0 is NotFound
            &&& search.found is None && search.end is Bad && after.fault_list()
                == before.fault_list() ==> result->Err_0 is BadCluster
            &&& search.found is None && search.end is Free && after.fault_list()
                == before.fault_list() ==> result->Err_0 is UnterminatedFatChain
            &&& result is Ok ==> search.found is Some && deletes(
                before,
                after,
                search.found->0,
                Ok(()),
            )
        }),
{
    if let Err(Error::DeviceError(e)) = result {
        assert(after.fault_list().len() == before.fault_list().len() + 1);
    }
}

/// Where a deletion met no error, the first byte of each slot of the entry and of its
/// long name says so, and no other byte of the disk is changed. Where it met one and
/// succeeds all the same, the entry is marked at least.
pub proof fn law_deleted_slots_are_marked<D: BlockDevice>(
    volume: FatVolume,
    before: BlockCache<D>,
    dir: ClusterId,
    name: Seq<u8>,
    after: BlockCache<D>,
    block: u32,
    i: int,
)
    requires
        whole_blocks(before.disk()),
        volume.entry_slots(before.disk(), dir, name) is Some,
        volume.removes_entry(before, dir, name, after, Ok(())),
        (volume.entry_slots(before.disk(), dir, name)->0).found matches Some(slots)
            && slots.len() > 0 && all_aligned(slots),
        0 <= i < 512,
    ensures
        ({
            let slots = (volume.entry_slots(before.disk(), dir, name)->0).found->0;
            let marked = exists|j: int|
                0 <= j < slots.len() && (#[trigger] slots[j]).block.0 == block && slots[j].offset
                    == i;
            &&& after.fault_list() == before.fault_list() && marked ==> after.disk()[block][i]
                == 0xE5
            &&& !marked ==> after.disk()[block][i] == before.disk()[block][i]
            &&& slots.last().block.0 == block && slots.last().offset == i
                ==> after.disk()[block][i] == 0xE5
        }),
{
    let disk = before.disk();
    let slots = (volume.entry_slots(disk, dir, name)->0).found->0;
    let order = deletion_order(slots);
    law_deletion_result(volume, before, dir, name, after, Ok(()));
    let n: nat = if after.untroubled(&before) {
        slots.len()
    } else {
        choose|n: nat|
            1 <= n < slots.len() && after.disk() == #[trigger] with_deletions(disk, order, n)
    };
    assert forall|j: int| 0 <= j < order.len() implies slot_aligned(#[trigger] order[j]) by {
        if j > 0 {
            assert(order[j] == slots[j - 1]);
        }
    }
    law_deletion_marks_one_byte_of_each_slot(disk, order, n, block, i);
    assert(order[0] == slots.last());
    assert forall|j: int| 0 <= j < slots.len() implies exists|m: int|
        0 <= m < order.len() && #[trigger] order[m] == #[trigger] slots[j] by {
        if j < slots.len() - 1 {
            assert(order[j + 1] == slots[j]);
        }
    }
    assert forall|m: int| 0 <= m < order.len() implies exists|j: int|
        0 <= j < slots.len() && #[trigger] slots[j] == #[trigger] order[m] by {
        if m > 0 {
            assert(order[m] == slots[m - 1]);
        }
    }
}

/// The alias that is given is the name of nothing in the directory: no slot that is
/// looked at holds something under its eleven bytes. Nothing changes by asking for it.
pub proof fn law_given_alias_is_new<D: BlockDevice>(
    volume: FatVolume,
    before: BlockCache<D>,
    dir: ClusterId,
    slots: Seq<DirectorySlot>,
    long_name: Seq<char>,
    after: BlockCache<D>,
    alias: ShortFileName,
    i: int,
)
    requires
        whole_blocks(before.disk()),
        volume.is_made_of(before.disk(), dir, slots, Link::End),
        volume.alias_search(before.disk(), dir, long_name, 0) is Some,
        volume.gives_alias(before, dir, long_name, after, Ok(alias)),
        0 <= i < slots.len(),
        forall|j: int| 0 <= j <= i ==> !is_unused(before.disk(), #[trigger] slots[j]),
        is_live(before.disk(), slots[i]),
    ensures
        after.disk() == before.disk(),
        !is_named(before.disk(), slots[i], alias.contents@),
{
    let outcome = volume.alias_search(before.disk(), dir, long_name, 0)->0;
    if let AliasOutcome::Free(number) = outcome {
        law_alias_is_new(volume, before.disk(), dir, slots, long_name, number, i);
    }
}

/// The alias that a long name is given is the first one that is not taken, and one is
/// refused only where every one of them is taken, or where looking for one of them came
/// to the end of a broken chain.
pub proof fn law_first_free_alias_is_given<D: BlockDevice>(
    volume: FatVolume,
    before: BlockCache<D>,
    dir: ClusterId,
    long_name: Seq<char>,
    after: BlockCache<D>,
    result: Result<ShortFileName, Error<D::Error>>,
    k: nat,
)
    requires
        volume.alias_search(before.disk(), dir, long_name, 0) is Some,
        volume.gives_alias(before, dir, long_name, after, result),
        after.fault_list() == before.fault_list(),
        k < 65540,
    ensures
        ({
            let taken = |i: nat|
                {
                    let answer = volume.name_taken(before.disk(), dir, candidate(long_name, i));
                    answer is Some && (answer->0).0
                };
            match result {
                Ok(alias) => exists|i: nat|
                    {
                        &&& i < 65540
                        &&& alias.contents@ == #[trigger] candidate_name(long_name, i)
                        &&& !taken(i)
                        &&& k < i ==> taken(k)
                    },
                Err(Error::FileAlreadyExists) => taken(k),
                Err(Error::BadCluster) => exists|j: nat|
                    j < 65540 && ends_with(
                        #[trigger] volume.name_taken(before.disk(), dir, candidate(long_name, j)),
                        Link::Bad,
                    ),
                Err(Error::UnterminatedFatChain) => exists|j: nat|
                    j < 65540 && ends_with(
                        #[trigger] volume.name_taken(before.disk(), dir, candidate(long_name, j)),
                        Link::Free,
                    ),
                Err(_) => false,
            }
        }),
{
    assert(after.untroubled(&before));
    law_first_free_alias_is_found(volume, before.disk(), dir, long_name, 0, k);
    let outcome = volume.alias_search(before.disk(), dir, long_name, 0)->0;
    if let AliasOutcome::Free(i) = outcome {
        assert(result->Ok_0.contents@ == candidate_name(long_name, i));
    }
}

/// Where case does not matter, two names count as the same just where they have as
/// many characters, and the lower case forms of these agree one by one. Where it does,
/// only the very name counts.
pub proof fn law_case_is_ignored_or_not(a: Seq<char>, b: Seq<char>)
    ensures
        reads_as(a, b, true) <==> a.len() == b.len() && forall|i: int|
            0 <= i < a.len() ==> lowercase(#[trigger] a[i]) == lowercase(b[i]),
        reads_as(a, b, false) <==> a == b,
{
    if reads_as(a, b, true) {
        assert forall|i: int| 0 <= i < a.len() implies lowercase(#[trigger] a[i]) == lowercase(
            b[i],
        ) by {}
    }
    if reads_as(a, b, false) {
        assert(a =~= b);
    }
}

/// What comes of going through a chain up to `end`: the end of it is as good as any
/// other place to stop at, and a chain that is broken is told.
pub open spec fn tells_end<E>(result: Result<(), Error<E>>, end: Link) -> bool {
    &&& end is Bad ==> result is Err && result->Err_0 is BadCluster
    &&& end is Free ==> result is Err && result->Err_0 is UnterminatedFatChain
    &&& !(end is Bad || end is Free) ==> result is Ok
}

/// Someone who is shown the entries of a directory learns what its slots hold, up to
/// the first one that was never used or to where they have had enough, and nothing
/// changes by that. A broken chain is told where it was come to.
pub proof fn law_visit_result<D: BlockDevice, W: Watcher>(
    volume: FatVolume,
    before: BlockCache<D>,
    dir: ClusterId,
    slots: Seq<DirectorySlot>,
    end: Link,
    n: int,
    first: W::State,
    last: W::State,
    after: BlockCache<D>,
    result: Result<(), Error<D::Error>>,
)
    requires
        whole_blocks(before.disk()),
        volume.is_made_of(before.disk(), dir, slots, end),
        looked_at(before.disk(), slots, n),
        volume.shows::<D, W>(before, after, volume.dir_start(dir), first, last, result),
    ensures
        after.disk() == before.disk(),
        after.fault_list() == before.fault_list() ==> {
            let (learned, enough) = learned_from::<W>(
                volume,
                before.disk(),
                slots.take(n),
                first,
            );
            &&& last == learned
            &&& tells_end(
                result,
                if enough || n < slots.len() {
                    Link::End
                } else {
                    end
                },
            )
        },
        after.fault_list() != before.fault_list() ==> result is Err && result->Err_0
            is DeviceError && after.fault_list() == before.fault_list().push(
            result->Err_0->DeviceError_0,
        ),
{
    law_everything_is_shown::<W>(volume, before.disk(), dir, slots, end, n, first);
}

/// A listing shows each entry that is looked at once, in order, until the visitor has
/// had enough, and nothing changes by that. A broken chain is told where it was come
/// to.
pub proof fn law_listing_result<D: BlockDevice, V: LongNameVisitor>(
    volume: FatVolume,
    before: BlockCache<D>,
    dir: ClusterId,
    slots: Seq<DirectorySlot>,
    end: Link,
    n: int,
    first: Listing<V::State>,
    last: Listing<V::State>,
    after: BlockCache<D>,
    result: Result<(), Error<D::Error>>,
)
    requires
        whole_blocks(before.disk()),
        volume.is_made_of(before.disk(), dir, slots, end),
        looked_at(before.disk(), slots, n),
        first.gather is Waiting,
        volume.shows::<D, LongNames<V>>(
            before,
            after,
            volume.dir_start(dir),
            first,
            last,
            result,
        ),
    ensures
        after.disk() == before.disk(),
        after.fault_list() == before.fault_list() ==> {
            let all = rows(before.disk(), slots.take(n), Seq::empty());
            let (seen, enough) = shown_rows::<V>(
                volume,
                before.disk(),
                all,
                first.buffer.capacity,
                first.seen,
            );
            &&& last.seen == seen
            &&& tells_end(
                result,
                if enough || n < slots.len() {
                    Link::End
                } else {
                    end
                },
            )
        },
{
    law_listing_shows_each_entry_once::<V>(volume, before.disk(), dir, slots, end, n, first);
}

/// Whoever asks whether a name is taken is told so where some slot that is looked at
/// holds something under it as a short name, whatever the attributes of the slot are.
pub proof fn law_taken_name_is_told<D: BlockDevice>(
    volume: FatVolume,
    before: BlockCache<D>,
    dir: ClusterId,
    slots: Seq<DirectorySlot>,
    name: Seq<char>,
    i: int,
    after: BlockCache<D>,
    result: Result<bool, Error<D::Error>>,
)
    requires
        whole_blocks(before.disk()),
        volume.is_made_of(before.disk(), dir, slots, Link::End),
        0 <= i < slots.len(),
        forall|j: int| 0 <= j <= i ==> !is_unused(before.disk(), #[trigger] slots[j]),
        is_live(before.disk(), slots[i]),
        short_name_of(name) matches Ok(bytes) && is_named(before.disk(), slots[i], bytes),
        only_reads(
            before,
            after,
            result,
            decided(volume.name_taken(before.disk(), dir, name)->0),
        ),
        after.fault_list() == before.fault_list(),
    ensures
        result == Ok::<bool, Error<D::Error>>(true),
{
    law_short_names_are_taken(volume, before.disk(), dir, slots, name, i);
    law_reading_is_safe(
        before,
        after,
        result,
        decided(volume.name_taken(before.disk(), dir, name)->0),
    );
}

/// Whoever asks whether a name is taken is told that it is not, where nothing in the
/// directory answers to it.
pub proof fn law_free_name_is_told<D: BlockDevice>(
    volume: FatVolume,
    before: BlockCache<D>,
    dir: ClusterId,
    slots: Seq<DirectorySlot>,
    n: int,
    name: Seq<char>,
    after: BlockCache<D>,
    result: Result<bool, Error<D::Error>>,
)
    requires
        whole_blocks(before.disk()),
        volume.is_made_of(before.disk(), dir, slots, Link::End),
        looked_at(before.disk(), slots, n),
        short_name_of(name) matches Ok(bytes) ==> forall|j: int|
            0 <= j < n && is_live(before.disk(), #[trigger] slots[j]) ==> !is_named(
                before.disk(),
                slots[j],
                bytes,
            ),
        volume.long_name_lookup(before.disk(), dir, name, true) matches Some(visit)
            && visit.state.found is None,
        only_reads(
            before,
            after,
            result,
            decided(volume.name_taken(before.disk(), dir, name)->0),
        ),
        after.fault_list() == before.fault_list(),
    ensures
        result == Ok::<bool, Error<D::Error>>(false),
{
    law_other_names_are_not_taken(volume, before.disk(), dir, slots, n, name);
    law_reading_is_safe(
        before,
        after,
        result,
        decided(volume.name_taken(before.disk(), dir, name)->0),
    );
}

} // verus!
