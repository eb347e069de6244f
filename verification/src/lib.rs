//! FAT16 and FAT32 volumes on a device that stores blocks of 512 bytes, as SD
//! cards do.
//!
//! [`boot::parse_volume`] opens a volume. The [`volume::FatVolume`] that it
//! gives is then used along with the [`block::BlockCache`] that stands in front
//! of the device: to follow and to change the File Allocation Table ([`table`],
//! [`allocation`]), to look through directories ([`iterate`], [`listing`],
//! [`lookup`], [`long_lookup`]), and to make and to delete their entries
//! ([`creation`], [`make_dir`], [`alias`], [`deletion`]).
//!
//! # How the contracts are stated
//!
//! A disk is a map from block numbers to the bytes of the blocks. What an
//! operation does is a function of that map and of what is known of the volume:
//! where a contract says `with_entry`, `with_slots` or `with_deletions`, that is
//! the disk afterwards, and where it says `visited` or `entry_slots`, that is
//! what a walk through a directory leads to.
//!
//! Devices fail. A cache keeps a list of the errors that its device has reported,
//! so a contract can tell an operation that met none, whose outcome is fixed,
//! from one that did. For the latter it says that the error is reported, or why
//! it is not, and what the disk may hold then.
//!
//! Numbers on a disk can be anything. An operation asks that the blocks it is
//! led to have numbers that fit, and that it is not led in a circle; these are
//! the conditions whose names end in `in_reach`. The laws in [`reach`] say that a
//! sound volume meets them.
//!
//! # What holds of the library as a whole
//!
//! [`laws`] has the laws of the table, of single slots and of names,
//! [`round_trip`] those of long names and their pieces, and [`placing`] says where
//! new entries are put. [`directory_laws`] says what is found, listed and deleted
//! after entries were written or deleted, slot by slot; [`outcomes`] and [`removal`]
//! say it of the operations that write and delete them.
//!
//! What all that comes to on the disk is said byte by byte: of boot sectors in
//! [`boot_laws`], of the table and the clusters in [`table_laws`], of entries, names
//! and labels in [`stored`], of the units of a text in [`spelling`], and of aliases in
//! [`alias_laws`]. [`places`] says which slots a directory has, [`rows`] what lookups
//! and listings make of them, [`deletion_laws`] which of them a deletion is about,
//! [`room`] which of them a new entry is given, and [`made`] and [`results`] what the
//! operations then write and tell.

pub mod alias;
pub mod alias_laws;
pub mod allocation;
pub mod block;
pub mod boot;
pub mod boot_laws;
pub mod bytes;
pub mod collections;
pub mod creation;
pub mod deletion;
pub mod deletion_laws;
pub mod directory;
pub mod directory_laws;
pub mod entry;
pub mod error;
pub mod free_slots;
pub mod iterate;
pub mod label;
pub mod laws;
pub mod layout;
pub mod lfn_buffer;
pub mod listing;
pub mod long_lookup;
pub mod long_name;
pub mod lookup;
pub mod made;
pub mod make_dir;
pub mod name;
pub mod outcomes;
pub mod places;
pub mod placing;
pub mod reach;
pub mod removal;
pub mod results;
pub mod room;
pub mod round_trip;
pub mod rows;
pub mod spelling;
pub mod stored;
pub mod table;
pub mod table_laws;
pub mod time;
pub mod volume;
pub mod walk;
