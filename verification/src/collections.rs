//! The collections of fixed capacity that the library works with.

use crate::directory::DirectorySlot;
use core::fmt::Write;
use vstd::prelude::*;

verus! {

/// `heapless::Vec`, a vector of fixed capacity.
#[verifier::external_type_specification]
#[verifier::external_body]
#[verifier::reject_recursive_types(T)]
pub struct ExHeaplessVec<T, const N: usize>(heapless::Vec<T, N>);

/// The slots that a list of them holds.
pub uninterp spec fn slot_list(slots: heapless::Vec<DirectorySlot, 21>) -> Seq<DirectorySlot>;

/// Calls `heapless::Vec::new`: the list is empty.
#[verifier::external_body]
pub(crate) fn no_slots() -> (slots: heapless::Vec<DirectorySlot, 21>)
    ensures
        slot_list(slots) == Seq::<DirectorySlot>::empty(),
{
    heapless::Vec::new()
}

/// Calls `heapless::Vec::push`: the slot is put at the end, unless there are
/// 21 of them already, in which case it is given back and nothing changes.
#[verifier::external_body]
pub(crate) fn push_slot(slots: &mut heapless::Vec<DirectorySlot, 21>, slot: DirectorySlot) -> (result:
    Result<(), DirectorySlot>)
    ensures
        result is Ok <==> slot_list(*old(slots)).len() < 21,
        match result {
            Ok(()) => slot_list(*final(slots)) == slot_list(*old(slots)).push(slot),
            Err(back) => back == slot && slot_list(*final(slots)) == slot_list(*old(slots)),
        },
{
    slots.push(slot)
}

/// Calls `heapless::Vec::clear`: the list is empty.
#[verifier::external_body]
pub(crate) fn clear_slots(slots: &mut heapless::Vec<DirectorySlot, 21>)
    ensures
        slot_list(*final(slots)) == Seq::<DirectorySlot>::empty(),
{
    slots.clear()
}

/// Calls `heapless::Vec::as_slice`: the slots in order, of which there are
/// never more than 21.
#[verifier::external_body]
pub(crate) fn slots_of(slots: &heapless::Vec<DirectorySlot, 21>) -> (list: &[DirectorySlot])
    ensures
        list@ == slot_list(*slots),
        list@.len() <= 21,
{
    slots.as_slice()
}

/// The bytes that the stem of a short name holds.
pub uninterp spec fn stem_bytes(stem: heapless::Vec<u8, 8>) -> Seq<u8>;

/// Calls `heapless::Vec::new`: the stem is empty.
#[verifier::external_body]
pub(crate) fn empty_stem() -> (stem: heapless::Vec<u8, 8>)
    ensures
        stem_bytes(stem) == Seq::<u8>::empty(),
{
    heapless::Vec::new()
}

/// Calls `heapless::Vec::push`: the byte is put at the end, unless there are
/// eight of them already, in which case it is given back and nothing changes.
#[verifier::external_body]
pub(crate) fn push_to_stem(stem: &mut heapless::Vec<u8, 8>, byte: u8) -> (result: Result<(), u8>)
    ensures
        result is Ok <==> stem_bytes(*old(stem)).len() < 8,
        match result {
            Ok(()) => stem_bytes(*final(stem)) == stem_bytes(*old(stem)).push(byte),
            Err(back) => back == byte && stem_bytes(*final(stem)) == stem_bytes(*old(stem)),
        },
{
    stem.push(byte)
}

/// Calls `heapless::Vec::as_slice`: the bytes in order, of which there are never
/// more than eight.
#[verifier::external_body]
pub(crate) fn stem_of(stem: &heapless::Vec<u8, 8>) -> (bytes: &[u8])
    ensures
        bytes@ == stem_bytes(*stem),
        bytes@.len() <= 8,
{
    stem.as_slice()
}

/// The bytes that the extension of a short name holds.
pub uninterp spec fn extension_bytes(extension: heapless::Vec<u8, 3>) -> Seq<u8>;

/// Calls `heapless::Vec::new`: the extension is empty.
#[verifier::external_body]
pub(crate) fn empty_extension() -> (extension: heapless::Vec<u8, 3>)
    ensures
        extension_bytes(extension) == Seq::<u8>::empty(),
{
    heapless::Vec::new()
}

/// Calls `heapless::Vec::push`: the byte is put at the end, unless there are
/// three of them already, in which case it is given back and nothing changes.
#[verifier::external_body]
pub(crate) fn push_to_extension(extension: &mut heapless::Vec<u8, 3>, byte: u8) -> (result: Result<
    (),
    u8,
>)
    ensures
        result is Ok <==> extension_bytes(*old(extension)).len() < 3,
        match result {
            Ok(()) => extension_bytes(*final(extension)) == extension_bytes(*old(extension)).push(
                byte,
            ),
            Err(back) => back == byte && extension_bytes(*final(extension)) == extension_bytes(
                *old(extension),
            ),
        },
{
    extension.push(byte)
}

/// Calls `heapless::Vec::as_slice`: the bytes in order, of which there are never
/// more than three.
#[verifier::external_body]
pub(crate) fn extension_of(extension: &heapless::Vec<u8, 3>) -> (bytes: &[u8])
    ensures
        bytes@ == extension_bytes(*extension),
        bytes@.len() <= 3,
{
    extension.as_slice()
}

/// `heapless::String`, a string of fixed capacity.
#[verifier::external_type_specification]
#[verifier::external_body]
pub struct ExHeaplessString<const N: usize>(heapless::String<N>);

/// The characters of an alias.
pub uninterp spec fn alias_text(alias: heapless::String<12>) -> Seq<char>;

/// Calls `heapless::String::new`: the alias is empty.
#[verifier::external_body]
pub(crate) fn empty_alias() -> (alias: heapless::String<12>)
    ensures
        alias_text(alias) == Seq::<char>::empty(),
{
    heapless::String::new()
}

/// Calls `heapless::String::push` with a character of one byte, on an alias of
/// such characters: it is put at the end, unless there are twelve of them
/// already, in which case nothing changes.
#[verifier::external_body]
pub(crate) fn push_to_alias(alias: &mut heapless::String<12>, c: char) -> (result: Result<(), ()>)
    requires
        (c as u32) < 0x80,
        forall|i: int|
            0 <= i < alias_text(*old(alias)).len() ==> (#[trigger] alias_text(*old(alias))[i] as u32)
                < 0x80,
    ensures
        result is Ok <==> alias_text(*old(alias)).len() < 12,
        alias_text(*final(alias)) == if result is Ok {
            alias_text(*old(alias)).push(c)
        } else {
            alias_text(*old(alias))
        },
{
    alias.push(c)
}

/// Calls `heapless::String::as_str`: the characters in order.
#[verifier::external_body]
pub(crate) fn alias_of(alias: &heapless::String<12>) -> (text: &str)
    ensures
        text@ == alias_text(*alias),
{
    alias.as_str()
}

/// The characters of the tail of an alias.
pub uninterp spec fn tail_text(tail: heapless::String<8>) -> Seq<char>;

/// Calls `heapless::String::new`: the tail is empty.
#[verifier::external_body]
pub(crate) fn empty_tail() -> (tail: heapless::String<8>)
    ensures
        tail_text(tail) == Seq::<char>::empty(),
{
    heapless::String::new()
}

/// Calls `heapless::String::push` with a character of one byte, on a tail of such
/// characters: it is put at the end, unless there are eight of them already, in
/// which case nothing changes.
#[verifier::external_body]
pub(crate) fn push_to_tail(tail: &mut heapless::String<8>, c: char) -> (result: Result<(), ()>)
    requires
        (c as u32) < 0x80,
        forall|i: int|
            0 <= i < tail_text(*old(tail)).len() ==> (#[trigger] tail_text(*old(tail))[i] as u32)
                < 0x80,
    ensures
        result is Ok <==> tail_text(*old(tail)).len() < 8,
        tail_text(*final(tail)) == if result is Ok {
            tail_text(*old(tail)).push(c)
        } else {
            tail_text(*old(tail))
        },
{
    tail.push(c)
}

/// The digit `d`, which may be one of sixteen.
pub open spec fn digit(d: int) -> char {
    (if d < 10 {
        48 + d
    } else {
        55 + d
    }) as char
}

/// `n` in decimal.
pub open spec fn decimal(n: nat) -> Seq<char>
    decreases n,
{
    if n < 10 {
        seq![digit(n as int)]
    } else {
        decimal(n / 10).push(digit((n % 10) as int))
    }
}

/// `n` as four hexadecimal digits in upper case.
pub open spec fn hexadecimal(n: u16) -> Seq<char> {
    seq![
        digit((n / 4096) as int),
        digit((n / 256 % 16) as int),
        digit((n / 16 % 16) as int),
        digit((n % 16) as int),
    ]
}

/// Calls the formatting of the standard library on a `heapless::String`, by
/// `write!`: the number is put at the end, in decimal. It is not asked for where
/// its digits, seven at most, and what is there would not fit into the eight
/// bytes.
#[verifier::external_body]
pub(crate) fn write_number(tail: &mut heapless::String<8>, number: u32)
    requires
        tail_text(*old(tail)).len() <= 1,
        forall|i: int|
            0 <= i < tail_text(*old(tail)).len() ==> (#[trigger] tail_text(*old(tail))[i] as u32)
                < 0x80,
        number <= 9_999_999,
    ensures
        tail_text(*final(tail)) == tail_text(*old(tail)) + decimal(number as nat),
{
    let _ = write!(tail, "{number}");
}

/// Calls the formatting of the standard library on a `heapless::String`, by
/// `write!`: the number is put at the end, as four hexadecimal digits in upper
/// case. It is not asked for where they would not fit into the eight bytes.
#[verifier::external_body]
pub(crate) fn write_digest(tail: &mut heapless::String<8>, digest: u16)
    requires
        tail_text(*old(tail)).len() <= 4,
        forall|i: int|
            0 <= i < tail_text(*old(tail)).len() ==> (#[trigger] tail_text(*old(tail))[i] as u32)
                < 0x80,
    ensures
        tail_text(*final(tail)) == tail_text(*old(tail)) + hexadecimal(digest),
{
    let _ = write!(tail, "{digest:04X}");
}

/// Calls `heapless::String::as_str`: the characters in order.
#[verifier::external_body]
pub(crate) fn tail_of(tail: &heapless::String<8>) -> (text: &str)
    ensures
        text@ == tail_text(*tail),
{
    tail.as_str()
}

} // verus!
