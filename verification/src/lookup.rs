//! Looking up an entry by its short name.

use crate::block::{BlockCache, BlockDevice, Disk};
use crate::entry::{ClusterId, DirEntry, DirectoryInfo, EntryView, OnDiskDirEntry};
use crate::error::Error;
use crate::iterate::{EntryVisitor, Visit, Watcher};
use crate::name::ShortFileName;
use crate::table::Link;
use crate::volume::FatVolume;
use core::ops::ControlFlow;
use vstd::prelude::*;

verus! {

/// What someone who looks for a name knows.
pub struct Sought<N> {
    /// The name.
    pub name: N,
    /// The entry, once it was found.
    pub found: Option<EntryView>,
}

/// Looks for an entry by its short name.
pub struct ShortNameFinder {
    /// The name to look for.
    pub name: ShortFileName,
    /// The entry, once it was found.
    pub found: Option<DirEntry>,
}

impl Watcher for ShortNameFinder {
    type State = Sought<Seq<u8>>;

    open spec fn shown(state: Sought<Seq<u8>>, entry: EntryView, raw: Seq<u8>) -> (
        Sought<Seq<u8>>,
        bool,
    ) {
        if entry.name == state.name {
            (Sought { found: Some(entry), ..state }, true)
        } else {
            (state, false)
        }
    }
}

impl EntryVisitor for ShortNameFinder {
    open spec fn state(&self) -> Sought<Seq<u8>> {
        Sought {
            name: self.name.contents@,
            found: match self.found {
                Some(entry) => Some(entry@),
                None => None,
            },
        }
    }

    fn visit(&mut self, entry: &DirEntry, raw: &OnDiskDirEntry) -> (flow: ControlFlow<()>) {
        if entry.name.is_same(&self.name) {
            self.found = Some(*entry);
            ControlFlow::Break(())
        } else {
            ControlFlow::Continue(())
        }
    }
}

/// A lookup: it leaves the disk as it was, and either the device reported no
/// error and `result` is what was found on a walk that came to `end`, or the
/// device reported an error and `result` is that error.
pub open spec fn looks_up<D: BlockDevice>(
    before: BlockCache<D>,
    after: BlockCache<D>,
    result: Result<DirEntry, Error<D::Error>>,
    found: Option<EntryView>,
    end: Link,
) -> bool {
    &&& after.clean()
    &&& after.disk() == before.disk()
    &&& if after.untroubled(&before) {
        match end {
            Link::Bad => result matches Err(Error::BadCluster),
            Link::Free => result matches Err(Error::UnterminatedFatChain),
            _ => match found {
                Some(entry) => result matches Ok(e) && e@ == entry,
                None => result matches Err(Error::NotFound),
            },
        }
    } else {
        result matches Err(Error::DeviceError(e)) && after.failed_with(&before, e)
    }
}

impl FatVolume {
    /// What looking for a short name in a directory leads to.
    pub open spec fn short_name_lookup(self, disk: Disk, dir: ClusterId, name: Seq<u8>) -> Option<
        Visit<Sought<Seq<u8>>>,
    > {
        self.visited::<ShortNameFinder>(disk, dir, Sought { name, found: None })
    }

    /// An operation that looks for an entry by its short name.
    pub open spec fn finds_by_short_name<D: BlockDevice>(
        self,
        before: BlockCache<D>,
        dir: ClusterId,
        name: Seq<u8>,
        after: BlockCache<D>,
        result: Result<DirEntry, Error<D::Error>>,
    ) -> bool {
        let visit = self.short_name_lookup(before.disk(), dir, name)->0;
        looks_up(before, after, result, visit.state.found, visit.end)
    }

    /// Get an entry from the given directory: the first one of that name.
    pub fn find_directory_entry<D: BlockDevice>(
        &self,
        block_cache: &mut BlockCache<D>,
        dir_info: &DirectoryInfo,
        match_name: &ShortFileName,
    ) -> (result: Result<DirEntry, Error<D::Error>>)
        requires
            old(block_cache).clean(),
            self.short_name_lookup(
                old(block_cache).disk(),
                dir_info.cluster,
                match_name.contents@,
            ) is Some,
        ensures
            self.finds_by_short_name(
                *old(block_cache),
                dir_info.cluster,
                match_name.contents@,
                *final(block_cache),
                result,
            ),
    {
        let mut finder = ShortNameFinder { name: *match_name, found: None };
        match self.iterate_dir(block_cache, dir_info, &mut finder) {
            Ok(()) => {},
            Err(e) => return Err(e),
        }
        match finder.found {
            Some(entry) => Ok(entry),
            None => Err(Error::NotFound),
        }
    }
}

} // verus!
