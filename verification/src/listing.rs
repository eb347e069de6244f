//! Listing a directory along with the long names of its entries.

use crate::block::{BlockCache, BlockDevice};
use crate::directory::Met;
use crate::entry::{
    slot_is_lfn, slot_lfn, DirEntry, DirectoryInfo, EntryView, LfnContents, LfnView,
};
use crate::error::Error;
use crate::iterate::Watcher;
use crate::lfn_buffer::{LfnBuffer, LfnText};
use crate::name::csum_of;
use crate::volume::FatVolume;
use core::marker::PhantomData;
use core::ops::ControlFlow;
use vstd::prelude::*;

verus! {

/// Someone who is shown the entries of a directory along with their long names.
pub trait LongNameVisitor: Sized {
    /// What the visitor has learned.
    type State;

    /// What the visitor has learned so far. An implementation that is not
    /// verified need not say.
    open spec fn state(&self) -> Self::State {
        arbitrary()
    }

    /// What is known after one more entry was shown, and whether that is enough.
    /// An implementation that is not verified need not say.
    open spec fn named(state: Self::State, entry: EntryView, long_name: Option<Seq<char>>) -> (
        Self::State,
        bool,
    ) {
        arbitrary()
    }

    /// Look at an entry and its long name, if it has one. A visitor that breaks
    /// is shown no more.
    fn visit(&mut self, entry: &DirEntry, long_name: Option<&str>) -> (flow: ControlFlow<()>)
        ensures
            Self::named(
                old(self).state(),
                entry@,
                match long_name {
                    Some(name) => Some(name@),
                    None => None,
                },
            ) == (final(self).state(), flow is Break),
    ;
}

/// How many of the pieces of a long name have been met.
#[derive(Clone, Copy)]
pub enum Gather {
    /// None.
    Waiting,
    /// Not all: the one numbered `next` comes next.
    Remaining {
        /// The checksum that the last piece has.
        csum: u8,
        /// The number of the next piece.
        next: u8,
    },
    /// All.
    Complete {
        /// The checksum that the last piece has.
        csum: u8,
    },
}

/// How many pieces have been met after one more of them, and the text that they
/// make up.
pub open spec fn gathered(state: Gather, buffer: LfnText, piece: LfnView) -> (Gather, LfnText) {
    let empty = LfnText::empty(buffer.capacity);
    let sequence = piece.sequence;
    if piece.is_start && sequence == 1 {
        (Gather::Complete { csum: piece.csum }, empty.push(piece.units))
    } else if piece.is_start && 2 <= sequence <= 20 {
        (
            Gather::Remaining { csum: piece.csum, next: (sequence - 1) as u8 },
            empty.push(piece.units),
        )
    } else if piece.is_start {
        (Gather::Waiting, empty)
    } else {
        match state {
            Gather::Remaining { csum, next } if next == sequence && sequence == 1 => (
                Gather::Complete { csum },
                buffer.push(piece.units),
            ),
            Gather::Remaining { csum, next } if next == sequence && 1 < sequence < 20 => (
                Gather::Remaining { csum, next: (sequence - 1) as u8 },
                buffer.push(piece.units),
            ),
            _ => (Gather::Waiting, empty),
        }
    }
}

/// The long name of an entry with this short name: what was gathered, if it is
/// all there and its checksum is good.
pub open spec fn long_name_for(state: Gather, buffer: LfnText, name: Seq<u8>) -> Option<Seq<char>> {
    match state {
        Gather::Complete { csum } if csum == csum_of(name) => Some(buffer.text),
        _ => None,
    }
}

/// What is known while a directory is listed.
pub struct Listing<S> {
    /// How many pieces of a long name have been met.
    pub gather: Gather,
    /// The text that they make up.
    pub buffer: LfnText,
    /// What the visitor has learned.
    pub seen: S,
}

/// Shows the entries that are no pieces of long names to a visitor, along with
/// the long names that the pieces right in front of them make up.
pub struct LongNames<V> {
    /// The visitor.
    pub visitor: PhantomData<V>,
}

impl<V: LongNameVisitor> Watcher for LongNames<V> {
    type State = Listing<V::State>;

    open spec fn shown(state: Listing<V::State>, entry: EntryView, raw: Seq<u8>) -> (
        Listing<V::State>,
        bool,
    ) {
        if slot_is_lfn(raw) {
            let (gather, buffer) = gathered(state.gather, state.buffer, slot_lfn(raw));
            (Listing { gather, buffer, ..state }, false)
        } else {
            let (seen, enough) = V::named(
                state.seen,
                entry,
                long_name_for(state.gather, state.buffer, entry.name),
            );
            (Listing { gather: Gather::Waiting, seen, ..state }, enough)
        }
    }
}

impl Gather {
    /// Take one more piece.
    fn update(self, lfn_buffer: &mut LfnBuffer, piece: &LfnContents) -> (state: Gather)
        requires
            old(lfn_buffer).wf(),
        ensures
            final(lfn_buffer).wf(),
            (state, final(lfn_buffer)@) == gathered(self, old(lfn_buffer)@, piece@),
    {
        let sequence: u8 = piece.sequence;
        if piece.is_start {
            lfn_buffer.clear();
            if sequence == 1 {
                lfn_buffer.push(&piece.units);
                return Gather::Complete { csum: piece.csum };
            }
            // The first piece of a chain carries the highest number, so this
            // bound is what limits how long a name can be listed.
            if sequence >= 2 && sequence <= 20 {
                lfn_buffer.push(&piece.units);
                return Gather::Remaining { csum: piece.csum, next: sequence - 1 };
            }
            return Gather::Waiting;
        }
        match self {
            Gather::Remaining { csum, next } if next == sequence && sequence == 1 => {
                lfn_buffer.push(&piece.units);
                Gather::Complete { csum }
            },
            Gather::Remaining { csum, next } if next == sequence && sequence > 1 && sequence < 20 => {
                lfn_buffer.push(&piece.units);
                Gather::Remaining { csum, next: sequence - 1 }
            },
            _ => {
                lfn_buffer.clear();
                Gather::Waiting
            },
        }
    }
}

impl FatVolume {
    /// Shows every valid entry of the given directory to `visitor`, including
    /// the long name. Useful for performing directory listings.
    pub fn iterate_dir_lfn<D: BlockDevice, V: LongNameVisitor>(
        &self,
        block_cache: &mut BlockCache<D>,
        lfn_buffer: &mut LfnBuffer,
        dir_info: &DirectoryInfo,
        visitor: &mut V,
    ) -> (result: Result<(), Error<D::Error>>)
        requires
            old(block_cache).clean(),
            old(lfn_buffer).wf(),
            self.visited::<LongNames<V>>(
                old(block_cache).disk(),
                dir_info.cluster,
                (Listing {
                    gather: Gather::Waiting,
                    buffer: old(lfn_buffer)@,
                    seen: old(visitor).state(),
                }),
            ) is Some,
        ensures
            final(lfn_buffer).wf(),
            exists|gather: Gather|
                #[trigger] self.shows::<D, LongNames<V>>(
                    *old(block_cache),
                    *final(block_cache),
                    self.dir_start(dir_info.cluster),
                    (Listing {
                        gather: Gather::Waiting,
                        buffer: old(lfn_buffer)@,
                        seen: old(visitor).state(),
                    }),
                    (Listing {
                        gather,
                        buffer: final(lfn_buffer)@,
                        seen: final(visitor).state(),
                    }),
                    result,
                ),
    {
        let ghost disk = block_cache.disk();
        let ghost first = Listing {
            gather: Gather::Waiting,
            buffer: lfn_buffer@,
            seen: visitor.state(),
        };
        let mut seq_state = Gather::Waiting;
        let fat_type = self.get_fat_type();
        let mut at = self.open_cursor(dir_info.cluster);
        let ghost start = at;
        let ghost whole = self.visited_from::<LongNames<V>>(disk, start, first)->0;
        let ghost mut fuel = choose|n: nat|
            self.visited_within::<LongNames<V>>(disk, start, first, n) is Some;
        let ghost mut k: nat = 0;
        assert(self.visit_steps::<LongNames<V>>(disk, start, first, 0) == (at, first));
        loop
            invariant
                block_cache.clean(),
                block_cache.disk() == disk,
                disk == old(block_cache).disk(),
                first == (Listing {
                    gather: Gather::Waiting,
                    buffer: old(lfn_buffer)@,
                    seen: old(visitor).state(),
                }),
                start == self.dir_start(dir_info.cluster),
                block_cache.untroubled(old(block_cache)),
                fat_type == self.fat_type(),
                at.wf(),
                lfn_buffer.wf(),
                self.visited_from::<LongNames<V>>(disk, start, first) == Some(whole),
                self.visited_within::<LongNames<V>>(
                    disk,
                    at,
                    (Listing { gather: seq_state, buffer: lfn_buffer@, seen: visitor.state() }),
                    fuel,
                ) == Some(whole),
                self.visit_steps::<LongNames<V>>(disk, start, first, k) == (
                    at,
                    (Listing { gather: seq_state, buffer: lfn_buffer@, seen: visitor.state() }),
                ),
            decreases fuel,
        {
            let ghost here = at;
            let ghost known = Listing {
                gather: seq_state,
                buffer: lfn_buffer@,
                seen: visitor.state(),
            };
            let met = match self.advance(block_cache, &mut at) {
                Ok(met) => met,
                Err(e) => {
                    proof {
                        assert(self.visit_steps::<LongNames<V>>(disk, start, first, k).1 == known);
                        assert(self.shows::<D, LongNames<V>>(
                            *old(block_cache),
                            *block_cache,
                            start,
                            first,
                            known,
                            Err(e),
                        ));
                    }
                    return Err(e);
                },
            };
            let mut done = false;
            match met {
                Met::Slot(slot, dir_entry) => {
                    if dir_entry.is_end() {
                        // Can quit early
                        done = true;
                    } else if dir_entry.is_valid() {
                        let entry = dir_entry.get_entry(fat_type, slot.block, slot.offset);
                        if let Some(piece) = dir_entry.lfn_contents() {
                            seq_state = seq_state.update(lfn_buffer, &piece);
                        } else {
                            let long_name = match seq_state {
                                Gather::Complete { csum } => if csum == entry.name.csum() {
                                    // Checksum is good, and all the pieces are there
                                    Some(lfn_buffer.as_str())
                                } else {
                                    None
                                },
                                _ => None,
                            };
                            if let ControlFlow::Break(_) = visitor.visit(&entry, long_name) {
                                // Can quit early
                                done = true;
                            }
                            // The pieces in front of this entry are of no use to the next one.
                            seq_state = Gather::Waiting;
                        }
                    }
                },
                Met::Cluster => {},
                Met::EndOfRegion => {
                    done = true;
                },
                Met::EndOfChain(_) => {
                    done = true;
                },
            }
            if done {
                assert(self.shows::<D, LongNames<V>>(
                    *old(block_cache),
                    *block_cache,
                    start,
                    first,
                    (Listing { gather: seq_state, buffer: lfn_buffer@, seen: visitor.state() }),
                    Ok(()),
                ));
                return Ok(());
            }
            proof {
                fuel = (fuel - 1) as nat;
                k = k + 1;
            }
        }
    }
}

} // verus!
