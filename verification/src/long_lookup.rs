//! Looking up an entry by its long name.

use crate::block::{BlockCache, BlockDevice, Disk};
use crate::entry::{
    slot_is_lfn, slot_lfn, ClusterId, DirEntry, DirectoryInfo, EntryView, LfnContents, LfnView,
    OnDiskDirEntry,
};
use crate::error::Error;
use crate::iterate::{EntryVisitor, Visit, Watcher};
use crate::long_name::{
    law_strips_what_it_spells, lemma_strip_concat, spells, strip_lfn_words, strip_units, trimmed,
    trimmed_length, Stripped,
};
use crate::lookup::looks_up;
use crate::name::{csum_of, short_name_of, ShortFileName};
use crate::table::{only_reads, Link};
use crate::volume::FatVolume;
use core::ops::ControlFlow;
use vstd::prelude::*;

verus! {

/// Are these all the pieces of one long name? The last piece of the name comes
/// first, they are numbered down to one, and all of them have the same checksum.
pub open spec fn is_name_chain(chain: Seq<LfnView>, csum: u8) -> bool {
    chain.len() > 0 && forall|i: int|
        0 <= i < chain.len() ==> {
            &&& (#[trigger] chain[i]).is_start == (i == 0)
            &&& chain[i].sequence == chain.len() - i
            &&& chain[i].csum == csum
        }
}

/// The code units that the pieces of a long name hold, without the padding of
/// the one that comes first.
pub open spec fn chain_units(chain: Seq<LfnView>) -> Seq<u16>
    decreases chain.len(),
{
    if chain.len() == 0 {
        Seq::empty()
    } else if chain.len() == 1 {
        trimmed(chain[0].units)
    } else {
        chain.last().units + chain_units(chain.drop_last())
    }
}

/// Does a chain with this checksum hold a long name that counts as `sought`?
pub open spec fn chain_reads(
    chain: Seq<LfnView>,
    csum: u8,
    sought: Seq<char>,
    fold_case: bool,
) -> bool {
    is_name_chain(chain, csum) && spells(chain_units(chain), sought, fold_case)
}

/// Does an entry with this short name, behind these pieces of long names, have a
/// long name that counts as `sought`? All the pieces of that name stand right in
/// front of the entry, and their checksum is that of the short name.
pub open spec fn bears_name(
    pieces: Seq<LfnView>,
    short_name: Seq<u8>,
    sought: Seq<char>,
    fold_case: bool,
) -> bool {
    exists|n: int|
        0 <= n <= pieces.len() && chain_reads(
            #[trigger] pieces.skip(n),
            csum_of(short_name),
            sought,
            fold_case,
        )
}

/// What someone who looks for a long name knows.
pub struct LongSought {
    /// The name.
    pub name: Seq<char>,
    /// Is case to be ignored?
    pub fold_case: bool,
    /// The pieces of long names that were met since the last entry that is none.
    pub pieces: Seq<LfnView>,
    /// The entry, once it was found.
    pub found: Option<EntryView>,
}

impl LongSought {
    /// What is known at the start.
    pub open spec fn start(name: Seq<char>, fold_case: bool) -> LongSought {
        LongSought { name, fold_case, pieces: Seq::empty(), found: None }
    }

    /// What is known after one more entry, and whether that is enough.
    pub open spec fn after(self, entry: EntryView, raw: Seq<u8>) -> (LongSought, bool) {
        if slot_is_lfn(raw) {
            (LongSought { pieces: self.pieces.push(slot_lfn(raw)), ..self }, false)
        } else if bears_name(self.pieces, entry.name, self.name, self.fold_case) {
            (LongSought { found: Some(entry), ..self }, true)
        } else {
            (LongSought { pieces: Seq::empty(), ..self }, false)
        }
    }
}

/// How far the comparison with the pieces of a long name has come.
enum Seek {
    /// Looking for the first piece of a long name.
    Waiting,
    /// Scanning through the pieces of a long name.
    Scanning { left: Stripped, sequence: u8, csum: u8 },
    /// Found all the pieces; the entry that they belong to comes next.
    Found { csum: u8 },
}

/// How far the comparison is once it came to `left` at the piece number
/// `sequence`.
spec fn compared(left: Stripped, sequence: u8, csum: u8) -> Seek {
    if !left.same || sequence == 0 {
        Seek::Waiting
    } else if sequence > 1 {
        Seek::Scanning { left, sequence: (sequence - 1) as u8, csum }
    } else if left.remaining.len() == 0 && left.pending is None {
        Seek::Found { csum }
    } else {
        Seek::Waiting
    }
}

/// How far the comparison of `name` with these pieces is.
spec fn seek(pieces: Seq<LfnView>, name: Seq<char>, fold_case: bool) -> Seek
    decreases pieces.len(),
{
    if pieces.len() == 0 {
        Seek::Waiting
    } else {
        let piece = pieces.last();
        if piece.is_start {
            compared(
                strip_units(trimmed(piece.units), name, None, fold_case),
                piece.sequence,
                piece.csum,
            )
        } else {
            match seek(pieces.drop_last(), name, fold_case) {
                Seek::Scanning { left, sequence, csum } if sequence == piece.sequence && csum
                    == piece.csum => compared(
                    strip_units(piece.units, left.remaining, left.pending, fold_case),
                    sequence,
                    csum,
                ),
                _ => Seek::Waiting,
            }
        }
    }
}

/// Are these the first pieces of a long name, of which `rest` are yet to come?
spec fn is_run(chain: Seq<LfnView>, rest: int, csum: u8) -> bool {
    chain.len() > 0 && forall|i: int|
        0 <= i < chain.len() ==> {
            &&& (#[trigger] chain[i]).is_start == (i == 0)
            &&& chain[i].sequence == chain.len() - i + rest
            &&& chain[i].csum == csum
        }
}

/// Comparing with one more piece of a name.
proof fn lemma_one_more_piece(chain: Seq<LfnView>, name: Seq<char>, fold_case: bool)
    requires
        chain.len() > 1,
    ensures
        ({
            let before = strip_units(chain_units(chain.drop_last()), name, None, fold_case);
            strip_units(chain_units(chain), name, None, fold_case) == if before.same {
                strip_units(chain.last().units, before.remaining, before.pending, fold_case)
            } else {
                before
            }
        }),
{
    lemma_strip_concat(
        chain.last().units,
        chain_units(chain.drop_last()),
        name,
        None,
        fold_case,
    );
}

/// Behind the pieces of a name that counts as the one sought, the comparison is
/// as far as they go.
proof fn lemma_seek_follows(
    front: Seq<LfnView>,
    chain: Seq<LfnView>,
    rest: int,
    csum: u8,
    name: Seq<char>,
    fold_case: bool,
)
    requires
        is_run(chain, rest, csum),
        rest >= 0,
        strip_units(chain_units(chain), name, None, fold_case).same,
    ensures
        seek(front + chain, name, fold_case) == compared(
            strip_units(chain_units(chain), name, None, fold_case),
            (rest + 1) as u8,
            csum,
        ),
    decreases chain.len(),
{
    let before = chain.drop_last();
    let last = chain[chain.len() - 1];
    assert((front + chain).last() == last);
    assert((front + chain).drop_last() =~= front + before);
    assert(chain[0].sequence == chain.len() + rest);
    if chain.len() > 1 {
        assert forall|i: int| 0 <= i < before.len() implies {
            &&& (#[trigger] before[i]).is_start == (i == 0)
            &&& before[i].sequence == before.len() - i + rest + 1
            &&& before[i].csum == csum
        } by {
            assert(before[i] == chain[i]);
        }
        lemma_one_more_piece(chain, name, fold_case);
        lemma_seek_follows(front, before, rest + 1, csum, name, fold_case);
    }
}

/// Where the comparison has come to something, the pieces that it came by are
/// those of a name.
proof fn lemma_seek_came_by(pieces: Seq<LfnView>, name: Seq<char>, fold_case: bool) -> (n: int)
    ensures
        match seek(pieces, name, fold_case) {
            Seek::Waiting => true,
            Seek::Scanning { left, sequence, csum } => {
                &&& 0 <= n < pieces.len()
                &&& sequence > 0
                &&& is_run(pieces.skip(n), sequence as int, csum)
                &&& left.same
                &&& strip_units(chain_units(pieces.skip(n)), name, None, fold_case) == left
            },
            Seek::Found { csum } => {
                &&& 0 <= n < pieces.len()
                &&& is_name_chain(pieces.skip(n), csum)
                &&& strip_units(chain_units(pieces.skip(n)), name, None, fold_case) == (Stripped {
                    same: true,
                    remaining: Seq::empty(),
                    pending: None,
                })
            },
        },
    decreases pieces.len(),
{
    if pieces.len() == 0 {
        0
    } else if pieces.last().is_start {
        let chain = pieces.skip(pieces.len() - 1);
        assert(chain =~= seq![pieces.last()]);
        let s = strip_units(chain_units(chain), name, None, fold_case);
        assert(s.remaining.len() == 0 ==> s.remaining =~= Seq::empty());
        pieces.len() - 1
    } else {
        let before = pieces.drop_last();
        let n = lemma_seek_came_by(before, name, fold_case);
        if seek(pieces, name, fold_case) !is Waiting {
            let chain = pieces.skip(n);
            assert(chain.drop_last() =~= before.skip(n));
            assert(chain.last() == pieces.last());
            assert forall|i: int| 0 <= i < chain.len() - 1 implies #[trigger] chain[i]
                == before.skip(n)[i] by {}
            lemma_one_more_piece(chain, name, fold_case);
            let s = strip_units(chain_units(chain), name, None, fold_case);
            assert(s.remaining.len() == 0 ==> s.remaining =~= Seq::empty());
        }
        n
    }
}

/// All pieces of a name that counts as the one sought were found just where an
/// entry with their checksum would bear that name.
proof fn lemma_found_is_borne(
    pieces: Seq<LfnView>,
    short_name: Seq<u8>,
    name: Seq<char>,
    fold_case: bool,
)
    ensures
        bears_name(pieces, short_name, name, fold_case) <==> seek(pieces, name, fold_case) == (
        Seek::Found { csum: csum_of(short_name) }),
{
    let csum = csum_of(short_name);
    let n = lemma_seek_came_by(pieces, name, fold_case);
    if seek(pieces, name, fold_case) == (Seek::Found { csum }) {
        law_strips_what_it_spells(chain_units(pieces.skip(n)), name, fold_case);
        assert(chain_reads(pieces.skip(n), csum, name, fold_case));
    }
    if bears_name(pieces, short_name, name, fold_case) {
        let m = choose|m: int|
            0 <= m <= pieces.len() && chain_reads(
                #[trigger] pieces.skip(m),
                csum,
                name,
                fold_case,
            );
        let chain = pieces.skip(m);
        law_strips_what_it_spells(chain_units(chain), name, fold_case);
        assert(is_run(chain, 0, csum));
        lemma_seek_follows(pieces.take(m), chain, 0, csum, name, fold_case);
        assert(pieces.take(m) + chain =~= pieces);
    }
}

/// How far the comparison with the pieces of a long name has come.
enum SeqState<'a> {
    Waiting,
    Scanning { remaining: &'a str, pending_low: Option<u16>, sequence: u8, csum: u8 },
    Found { csum: u8 },
}

impl<'a> SeqState<'a> {
    /// Is this how far the comparison with some pieces is?
    spec fn is_at(self, seek: Seek) -> bool {
        match self {
            SeqState::Waiting => seek is Waiting,
            SeqState::Scanning { remaining, pending_low, sequence, csum } => {
                &&& pending_low matches Some(low) ==> 0xDC00 <= low <= 0xDFFF
                &&& seek == (Seek::Scanning {
                    left: Stripped { same: true, remaining: remaining@, pending: pending_low },
                    sequence,
                    csum,
                })
            },
            SeqState::Found { csum } => seek == (Seek::Found { csum }),
        }
    }

    /// Note what the comparison with the piece number `sequence` came to.
    fn compared(
        same: bool,
        remaining: &'a str,
        pending_low: Option<u16>,
        sequence: u8,
        csum: u8,
    ) -> (state: SeqState<'a>)
        requires
            pending_low matches Some(low) ==> 0xDC00 <= low <= 0xDFFF,
        ensures
            state.is_at(
                compared(
                    (Stripped { same, remaining: remaining@, pending: pending_low }),
                    sequence,
                    csum,
                ),
            ),
    {
        if !same || sequence == 0 {
            // no, didn't want that
            SeqState::Waiting
        } else if sequence > 1 {
            // keep looking
            SeqState::Scanning { remaining, pending_low, sequence: sequence - 1, csum }
        } else if remaining.unicode_len() == 0 && pending_low.is_none() {
            // found it
            SeqState::Found { csum }
        } else {
            // no, we have characters left over
            SeqState::Waiting
        }
    }
}

/// The pieces of long names that were met, and how far the comparison with them
/// has come.
struct Comparison<'a> {
    state: SeqState<'a>,
    pieces: Ghost<Seq<LfnView>>,
}

/// Looks for an entry by its long name.
pub struct LongNameFinder<'a> {
    name: &'a str,
    fold_case: bool,
    comparison: Comparison<'a>,
    found: Option<DirEntry>,
}

impl<'a> Watcher for LongNameFinder<'a> {
    type State = LongSought;

    open spec fn shown(state: LongSought, entry: EntryView, raw: Seq<u8>) -> (LongSought, bool) {
        state.after(entry, raw)
    }
}

impl<'a> LongNameFinder<'a> {
    /// The comparison is as far as the pieces that were met go.
    #[verifier::type_invariant]
    spec fn wf(self) -> bool {
        self.comparison.state.is_at(
            seek(self.comparison.pieces@, self.name@, self.fold_case),
        )
    }

    /// Compare with one more piece of a long name.
    fn compare(&self, piece: &LfnContents) -> (state: SeqState<'a>)
        ensures
            state.is_at(
                seek(self.comparison.pieces@.push(piece@), self.name@, self.fold_case),
            ),
    {
        proof {
            use_type_invariant(self);
            let pieces = self.comparison.pieces@;
            assert(pieces.push(piece@).drop_last() =~= pieces);
        }
        if piece.is_start {
            // trim padding and NUL words off the end of the file name
            let length: usize = trimmed_length(&piece.units);
            let words = vstd::slice::slice_subrange(&piece.units, 0, length);
            assert(words@ =~= piece.units@.take(length as int));
            let (same, remaining, pending) = strip_lfn_words(
                words,
                self.name,
                None,
                self.fold_case,
            );
            return SeqState::compared(same, remaining, pending, piece.sequence, piece.csum);
        }
        match self.comparison.state {
            SeqState::Scanning { remaining, pending_low, sequence, csum } if piece.sequence
                == sequence && piece.csum == csum => {
                let (same, left, pending) = strip_lfn_words(
                    &piece.units,
                    remaining,
                    pending_low,
                    self.fold_case,
                );
                SeqState::compared(same, left, pending, sequence, csum)
            },
            // not what we wanted
            _ => SeqState::Waiting,
        }
    }
}

impl<'a> EntryVisitor for LongNameFinder<'a> {
    closed spec fn state(&self) -> LongSought {
        LongSought {
            name: self.name@,
            fold_case: self.fold_case,
            pieces: self.comparison.pieces@,
            found: match self.found {
                Some(entry) => Some(entry@),
                None => None,
            },
        }
    }

    fn visit(&mut self, entry: &DirEntry, raw: &OnDiskDirEntry) -> (flow: ControlFlow<()>) {
        proof {
            use_type_invariant(&*self);
            lemma_found_is_borne(
                self.comparison.pieces@,
                entry@.name,
                self.name@,
                self.fold_case,
            );
        }
        if let Some(piece) = raw.lfn_contents() {
            let state = self.compare(&piece);
            let ghost pieces = self.comparison.pieces@.push(piece@);
            self.comparison = Comparison { state, pieces: Ghost(pieces) };
            return ControlFlow::Continue(());
        }
        if let SeqState::Found { csum } = self.comparison.state {
            if entry.name.csum() == csum {
                self.found = Some(*entry);
                return ControlFlow::Break(());
            }
        }
        // The pieces in front of this entry are of no use to the next one.
        self.comparison = Comparison { state: SeqState::Waiting, pieces: Ghost(Seq::empty()) };
        ControlFlow::Continue(())
    }
}

/// The outcome of a search that came to an answer and a link.
pub open spec fn decided<E>(answer: (bool, Link)) -> Result<bool, Error<E>> {
    match answer.1 {
        Link::Bad => Err(Error::BadCluster),
        Link::Free => Err(Error::UnterminatedFatChain),
        _ => Ok(answer.0),
    }
}

impl FatVolume {
    /// What looking for a long name in a directory leads to.
    pub open spec fn long_name_lookup(
        self,
        disk: Disk,
        dir: ClusterId,
        name: Seq<char>,
        fold_case: bool,
    ) -> Option<Visit<LongSought>> {
        self.visited::<LongNameFinder>(disk, dir, LongSought::start(name, fold_case))
    }

    /// An operation that looks for an entry by its long name, letter by letter.
    pub open spec fn finds_by_long_name<D: BlockDevice>(
        self,
        before: BlockCache<D>,
        dir: ClusterId,
        name: Seq<char>,
        after: BlockCache<D>,
        result: Result<DirEntry, Error<D::Error>>,
    ) -> bool {
        let visit = self.long_name_lookup(before.disk(), dir, name, false)->0;
        looks_up(before, after, result, visit.state.found, visit.end)
    }

    /// Get an entry from the given directory by its long name.
    pub fn find_directory_entry_by_lfn<D: BlockDevice>(
        &self,
        block_cache: &mut BlockCache<D>,
        dir_info: &DirectoryInfo,
        match_name: &str,
    ) -> (result: Result<DirEntry, Error<D::Error>>)
        requires
            old(block_cache).clean(),
            self.long_name_lookup(
                old(block_cache).disk(),
                dir_info.cluster,
                match_name@,
                false,
            ) is Some,
        ensures
            self.finds_by_long_name(
                *old(block_cache),
                dir_info.cluster,
                match_name@,
                *final(block_cache),
                result,
            ),
    {
        self.find_directory_entry_by_lfn_inner(block_cache, dir_info, match_name, false)
    }

    /// Get an entry from the given directory by its long name, optionally
    /// ignoring case.
    fn find_directory_entry_by_lfn_inner<D: BlockDevice>(
        &self,
        block_cache: &mut BlockCache<D>,
        dir_info: &DirectoryInfo,
        match_name: &str,
        fold_case: bool,
    ) -> (result: Result<DirEntry, Error<D::Error>>)
        requires
            old(block_cache).clean(),
            self.long_name_lookup(
                old(block_cache).disk(),
                dir_info.cluster,
                match_name@,
                fold_case,
            ) is Some,
        ensures
            ({
                let visit = self.long_name_lookup(
                    old(block_cache).disk(),
                    dir_info.cluster,
                    match_name@,
                    fold_case,
                )->0;
                looks_up(
                    *old(block_cache),
                    *final(block_cache),
                    result,
                    visit.state.found,
                    visit.end,
                )
            }),
    {
        let mut finder = LongNameFinder {
            name: match_name,
            fold_case,
            comparison: Comparison { state: SeqState::Waiting, pieces: Ghost(Seq::empty()) },
            found: None,
        };
        match self.iterate_dir(block_cache, dir_info, &mut finder) {
            Ok(()) => {},
            Err(e) => return Err(e),
        }
        match finder.found {
            Some(entry) => Ok(entry),
            None => Err(Error::NotFound),
        }
    }

    /// Is `name` taken in a directory, as a long name or as a short one? The
    /// second part is the link that the search came to: the end, unless the
    /// chain of the directory is broken.
    pub open spec fn name_taken(self, disk: Disk, dir: ClusterId, name: Seq<char>) -> Option<
        (bool, Link),
    > {
        match self.long_name_lookup(disk, dir, name, true) {
            None => None,
            Some(visit) => if visit.end is Bad || visit.end is Free {
                Some((false, visit.end))
            } else if visit.state.found is Some {
                Some((true, Link::End))
            } else {
                match short_name_of(name) {
                    Err(_) => Some((false, Link::End)),
                    Ok(bytes) => match self.short_name_lookup(disk, dir, bytes) {
                        None => None,
                        Some(visit) => Some((visit.state.found is Some, visit.end)),
                    },
                }
            },
        }
    }

    /// Is `name` already taken in this directory?
    ///
    /// FAT gives a directory one namespace, not two: an entry's long name and
    /// its short name both live in it, and names that differ only by case are
    /// the same name. Every name that a new entry is to answer to has to be asked
    /// for, its alias too.
    ///
    /// A directory that can be walked through to its end can be asked for any
    /// name: that is `law_names_in_reach`.
    pub fn name_is_taken<D: BlockDevice>(
        &self,
        block_cache: &mut BlockCache<D>,
        dir_info: &DirectoryInfo,
        name: &str,
    ) -> (result: Result<bool, Error<D::Error>>)
        requires
            old(block_cache).clean(),
            self.name_taken(old(block_cache).disk(), dir_info.cluster, name@) is Some,
        ensures
            only_reads(
                *old(block_cache),
                *final(block_cache),
                result,
                decided(
                    self.name_taken(old(block_cache).disk(), dir_info.cluster, name@)->0,
                ),
            ),
    {
        // Against existing long names, ignoring case.
        match self.find_directory_entry_by_lfn_inner(block_cache, dir_info, name, true) {
            Ok(_) => return Ok(true),
            Err(Error::NotFound) => {},
            Err(error) => return Err(error),
        }
        // Against existing short names. Only a name that is itself 8.3-shaped
        // can collide with one, and short names are stored in upper case.
        if let Ok(as_short) = ShortFileName::create_from_str(name) {
            match self.find_directory_entry(block_cache, dir_info, &as_short) {
                Ok(_) => return Ok(true),
                Err(Error::NotFound) => {},
                Err(error) => return Err(error),
            }
        }
        Ok(false)
    }
}

} // verus!
