//! The stored form of entries, of long names and of labels, byte by byte.

use crate::block::Disk;
use crate::bytes::le16;
use crate::creation::{chain_bytes, piece, piece_count};
use crate::entry::{
    entry_bytes, slot_entry, slot_is_lfn, slot_lfn, Attributes, EntryView, FatType,
};
use crate::label::{
    filled, is_white, label_bytes, label_char, label_error, latin1, trim_white,
};
use crate::laws::lemma_entry_layout;
use crate::long_name::{lfn_bytes, long_name_length, padded, reserved_in_long_names, utf16};
use crate::name::{
    ascii_upper, csum_of, lemma_name_error_stays, name_step, name_steps, reserved_in_short_names,
    short_name_of, FilenameError, PartialName,
};
use crate::time::{
    fat_date, fat_time, fat_time_bytes, lemma_packed_date, lemma_packed_time, Timestamp,
};
use crate::volume::{FatSpecificInfo, FatVolume};
use vstd::prelude::*;

verus! {

/// A time of day as it is stored, to two seconds: five bits for the hours, six for
/// the minutes, and five for half the seconds.
pub open spec fn packed_time(t: Timestamp) -> int {
    t.hours * 0x800 + t.minutes * 0x20 + t.seconds as int / 2
}

/// A date as it is stored: seven bits for the years since 1980, four for the month
/// and five for the day, both counted from one.
pub open spec fn packed_date(t: Timestamp) -> int {
    (t.year_since_1970 - 10) * 0x200 + (t.zero_indexed_month + 1) * 0x20 + t.zero_indexed_day + 1
}

/// Is this a date and a time, between 1980 and 2107?
pub open spec fn is_date_and_time(t: Timestamp) -> bool {
    &&& 10 <= t.year_since_1970 < 138
    &&& t.zero_indexed_month < 12
    &&& t.zero_indexed_day < 31
    &&& t.hours < 24
    &&& t.minutes < 60
    &&& t.seconds < 60
}

/// A date and a time are stored as said.
proof fn lemma_packed(t: Timestamp)
    requires
        is_date_and_time(t),
    ensures
        fat_time(t) == packed_time(t),
        fat_date(t) == packed_date(t),
{
}

/// An entry is stored in 32 bytes: the name, the attributes, the time and date of its
/// creation and of its last change, its first cluster in two halves, of which a FAT16
/// volume leaves the upper one out, and its size.
pub proof fn law_entry_is_stored_so(e: EntryView, fat_type: FatType)
    requires
        e.name.len() == 11,
    ensures
        ({
            let raw = entry_bytes(e, fat_type);
            &&& raw.len() == 32
            &&& forall|k: int| 0 <= k < 11 ==> #[trigger] raw[k] == e.name[k]
            &&& raw[11] == e.attributes.0
            &&& raw[12] == 0 && raw[13] == 0 && raw[18] == 0 && raw[19] == 0
            &&& is_date_and_time(e.ctime) ==> {
                &&& raw[14] + 0x100 * raw[15] == packed_time(e.ctime)
                &&& raw[16] + 0x100 * raw[17] == packed_date(e.ctime)
            }
            &&& is_date_and_time(e.mtime) ==> {
                &&& raw[22] + 0x100 * raw[23] == packed_time(e.mtime)
                &&& raw[24] + 0x100 * raw[25] == packed_date(e.mtime)
            }
            &&& raw[26] + 0x100 * raw[27] == e.cluster.0 as int % 0x1_0000
            &&& fat_type is Fat32 ==> raw[20] + 0x100 * raw[21] == e.cluster.0 as int / 0x1_0000
            &&& fat_type is Fat16 ==> raw[20] == 0 && raw[21] == 0
            &&& raw[28] == e.size as int % 0x100
            &&& raw[29] == e.size as int / 0x100 % 0x100
            &&& raw[30] == e.size as int / 0x1_0000 % 0x100
            &&& raw[31] == e.size as int / 0x100_0000
        }),
{
    let raw = entry_bytes(e, fat_type);
    if is_date_and_time(e.ctime) {
        lemma_packed(e.ctime);
    }
    if is_date_and_time(e.mtime) {
        lemma_packed(e.mtime);
    }
    lemma_entry_layout(e, fat_type);
    assert forall|k: int| 0 <= k < 11 implies #[trigger] raw[k] == e.name[k] by {
        assert(raw.take(11)[k] == raw[k]);
    }
    assert(raw.subrange(14, 16)[0] == raw[14] && raw.subrange(14, 16)[1] == raw[15]);
    assert(raw.subrange(16, 18)[0] == raw[16] && raw.subrange(16, 18)[1] == raw[17]);
    assert(raw.subrange(20, 22)[0] == raw[20] && raw.subrange(20, 22)[1] == raw[21]);
    assert(raw.subrange(22, 24)[0] == raw[22] && raw.subrange(22, 24)[1] == raw[23]);
    assert(raw.subrange(24, 26)[0] == raw[24] && raw.subrange(24, 26)[1] == raw[25]);
    assert(raw.subrange(26, 28)[0] == raw[26] && raw.subrange(26, 28)[1] == raw[27]);
    assert(raw.subrange(28, 32)[0] == raw[28] && raw.subrange(28, 32)[1] == raw[29]);
    assert(raw.subrange(28, 32)[2] == raw[30] && raw.subrange(28, 32)[3] == raw[31]);
}

/// An entry is read from its 32 bytes in the same way. A directory that is stored
/// without a cluster is the root directory; nothing else is.
pub proof fn law_entry_is_read_so(raw: Seq<u8>, fat_type: FatType, block: u32, offset: u32)
    requires
        raw.len() == 32,
    ensures
        ({
            let e = slot_entry(raw, fat_type, block, offset);
            let low = raw[26] + 0x100 * raw[27];
            let stored = match fat_type {
                FatType::Fat16 => low,
                FatType::Fat32 => low + 0x1_0000 * raw[20] + 0x100_0000 * raw[21],
            };
            &&& e.name == raw.take(11)
            &&& e.attributes == Attributes(raw[11])
            &&& e.block == block
            &&& e.offset == offset
            &&& e.size == raw[28] + 0x100 * raw[29] + 0x1_0000 * raw[30] + 0x100_0000 * raw[31]
            &&& e.cluster.0 == if stored == 0 && raw[11] as int / 0x10 % 2 == 1 {
                0xFFFF_FFFC
            } else {
                stored
            }
        }),
{
    if fat_type == FatType::Fat32 {
        let (high, low) = (le16(raw, 20), le16(raw, 26));
        assert(high * 65536 + low <= u32::MAX);
    }
}

/// A date and a time are read as they were stored, to two seconds. A month or a day of
/// zero counts as the first.
pub proof fn law_times_are_read_so(raw: Seq<u8>, fat_type: FatType, block: u32, offset: u32)
    requires
        raw.len() == 32,
    ensures
        ({
            let e = slot_entry(raw, fat_type, block, offset);
            &&& reads_time(e.ctime, raw[14] + 0x100 * raw[15], raw[16] + 0x100 * raw[17])
            &&& reads_time(e.mtime, raw[22] + 0x100 * raw[23], raw[24] + 0x100 * raw[25])
        }),
{
}

/// Is this the instant that a stored time and a stored date stand for?
pub open spec fn reads_time(t: Timestamp, time: int, date: int) -> bool {
    let month = date / 0x20 % 0x10;
    let day = date % 0x20;
    &&& t.year_since_1970 == date / 0x200 + 10
    &&& month > 0 ==> t.zero_indexed_month == month - 1
    &&& month == 0 ==> t.zero_indexed_month == 0
    &&& day > 0 ==> t.zero_indexed_day == day - 1
    &&& day == 0 ==> t.zero_indexed_day == 0
    &&& t.hours == time / 0x800
    &&& t.minutes == time / 0x20 % 0x40
    &&& t.seconds == time % 0x20 * 2
}

/// Where in its slot the code unit number `i` of a piece of a long name stands.
pub open spec fn unit_place(i: int) -> int {
    seq![1int, 3, 5, 7, 9, 14, 16, 18, 20, 22, 24, 28, 30][i]
}

/// A piece of a long name is stored in 32 bytes: its number, with a mark on the one
/// that comes first; thirteen code units in three rows; the attributes of a piece, and
/// the checksum of the short name. Behind the end of the name comes a zero, and then
/// nothing but ones.
pub proof fn law_piece_is_stored_so(
    sequence: u8,
    is_last: bool,
    checksum: u8,
    name: Seq<u16>,
    i: int,
)
    requires
        sequence <= 20,
        name.len() <= 13,
        0 <= i < 13,
    ensures
        ({
            let raw = lfn_bytes(sequence, is_last, checksum, name);
            let at = unit_place(i);
            &&& raw.len() == 32
            &&& raw[0] == if is_last {
                0x40 + sequence as int
            } else {
                sequence as int
            }
            &&& raw[11] == 0x0F && raw[12] == 0 && raw[13] == checksum
            &&& raw[26] == 0 && raw[27] == 0
            &&& raw[at] + 0x100 * raw[at + 1] == if i < name.len() {
                name[i] as int
            } else if i == name.len() {
                0
            } else {
                0xFFFF
            }
        }),
{
    assert(sequence <= 20 ==> sequence | 0x40 == 0x40 + sequence) by (bit_vector);
    let u = padded(name);
    let raw = lfn_bytes(sequence, is_last, checksum, name);
    assert(raw.len() == 32);
    assert(raw[unit_place(i)] == (u[i] % 256) as u8);
    assert(raw[unit_place(i) + 1] == (u[i] / 256) as u8);
}

/// A piece of a long name is read from its 32 bytes in the same way.
pub proof fn law_piece_is_read_so(raw: Seq<u8>, i: int)
    requires
        raw.len() == 32,
        0 <= i < 13,
    ensures
        ({
            let piece = slot_lfn(raw);
            let at = unit_place(i);
            &&& slot_is_lfn(raw) <==> raw[11] as int % 0x10 == 0x0F
            &&& piece.is_start <==> raw[0] as int / 0x40 % 2 == 1
            &&& piece.sequence == raw[0] as int % 0x20
            &&& piece.csum == raw[13]
            &&& piece.units.len() == 13
            &&& piece.units[i] == raw[at] + 0x100 * raw[at + 1]
        }),
{
}

/// A long name is cut into pieces of thirteen code units, the last of which comes
/// first: the code unit number `i` stands in the piece that is numbered one higher
/// than `i / 13`, at the place `i % 13` of it.
pub proof fn law_long_name_is_cut_so(name: Seq<char>, checksum: u8, i: int)
    requires
        long_name_length(name) is Ok,
        0 <= i < utf16(name).len(),
    ensures
        ({
            let raws = chain_bytes(name, checksum);
            let raw = raws[raws.len() - 1 - i / 13];
            let at = unit_place(i % 13);
            &&& 13 * (raws.len() - 1) < utf16(name).len() <= 13 * raws.len()
            &&& raw[at] + 0x100 * raw[at + 1] == utf16(name)[i]
            &&& raw[0] as int % 0x20 == i / 13 + 1
            &&& raw[0] as int / 0x20 == if i / 13 == raws.len() - 1 {
                2int
            } else {
                0
            }
            &&& raw[11] == 0x0F
            &&& raw[13] == checksum
        }),
{
    let units = utf16(name);
    let count = piece_count(units.len());
    let k = i / 13;
    let raws = chain_bytes(name, checksum);
    let at = raws.len() - 1 - k;
    assert(0 <= at < raws.len());
    let part = piece(units, k + 1);
    assert(count - at == k + 1);
    assert(raws[at] == lfn_bytes((k + 1) as u8, at == 0, checksum, part));
    assert(part[i % 13] == units[i]);
    law_piece_is_stored_so((k + 1) as u8, at == 0, checksum, part, i % 13);
}

/// Is this a character that no long name may hold: a control character, one of nine
/// signs, or the one that could not be told from what stands behind the end of a name?
pub open spec fn barred_from_long_names(c: char) -> bool {
    let n = c as int;
    n < 0x20 || n == 0x22 || n == 0x2A || n == 0x2F || n == 0x3A || n == 0x3C || n == 0x3E || n
        == 0x3F || n == 0x5C || n == 0x7C || n == 0xFFFF
}

/// A long name is good if it has between 1 and 255 code units and holds no character
/// that is barred. Else the first of these that is wrong with it is told: a character,
/// that it is empty, or that it is too long.
pub proof fn law_good_long_names(name: Seq<char>)
    ensures
        ({
            let barred = exists|i: int|
                0 <= i < name.len() && barred_from_long_names(#[trigger] name[i]);
            let result = long_name_length(name);
            &&& barred ==> result == Err::<nat, FilenameError>(FilenameError::InvalidCharacter)
            &&& name.len() == 0 ==> result == Err::<nat, FilenameError>(
                FilenameError::FilenameEmpty,
            )
            &&& !barred && utf16(name).len() > 255 ==> result == Err::<nat, FilenameError>(
                FilenameError::NameTooLong,
            )
            &&& !barred && name.len() > 0 && utf16(name).len() <= 255 ==> result == Ok::<
                nat,
                FilenameError,
            >(utf16(name).len())
        }),
{
    lemma_units_and_characters(name);
    assert forall|i: int| 0 <= i < name.len() implies barred_from_long_names(#[trigger] name[i])
        == reserved_in_long_names(name[i]) by {
        lemma_barred(name[i]);
    }
}

/// A character takes one code unit up to U+FFFF, and two above that.
pub proof fn lemma_units_and_characters(name: Seq<char>)
    ensures
        name.len() == 0 ==> utf16(name).len() == 0,
        utf16(name).len() >= name.len(),
    decreases name.len(),
{
    if name.len() > 0 {
        lemma_units_and_characters(name.drop_last());
    }
}

/// Is this a character that no label may hold: a control character, one of sixteen
/// signs, or one that does not fit into a byte?
pub open spec fn barred_from_labels(c: char) -> bool {
    let n = c as int;
    n < 0x20 || n == 0x22 || 0x2A <= n <= 0x2C || 0x2E <= n <= 0x2F || 0x3A <= n <= 0x3F || 0x5B
        <= n <= 0x5D || n == 0x7C || n > 0xFF
}

/// A label is good if it has between 1 and 11 characters, none of which is barred.
/// Else what is wrong with it is told, by what comes first as it is read.
pub proof fn law_good_labels(name: Seq<char>)
    ensures
        ({
            let barred = exists|i: int|
                0 <= i < name.len() && i < 12 && barred_from_labels(#[trigger] name[i]);
            &&& barred ==> label_error(name) == Some(FilenameError::InvalidCharacter)
            &&& !barred && name.len() > 11 ==> label_error(name) == Some(
                FilenameError::NameTooLong,
            )
            &&& name.len() == 0 ==> label_error(name) == Some(FilenameError::FilenameEmpty)
            &&& !barred && 0 < name.len() <= 11 ==> label_error(name) is None
        }),
{
    assert forall|i: int| 0 <= i < name.len() implies barred_from_labels(#[trigger] name[i])
        == !label_char(name[i]) by {
        lemma_barred(name[i]);
    }
}

/// What a character is barred from.
proof fn lemma_barred(c: char)
    ensures
        barred_from_long_names(c) == reserved_in_long_names(c),
        barred_from_labels(c) == !label_char(c),
{
}

/// The checksum of a short name: what the bytes before a byte came to is turned right
/// by one bit, and that byte is added to it.
pub proof fn law_checksum_turns_and_adds(bytes: Seq<u8>, b: u8)
    ensures
        csum_of(Seq::empty()) == 0,
        csum_of(bytes.push(b)) == (((csum_of(bytes) >> 1) | (csum_of(bytes) << 7)) as int + b)
            % 0x100,
{
    let sum = csum_of(bytes);
    assert(bytes.push(b).drop_last() =~= bytes);
    assert((sum / 2 + (sum % 2) * 128) as u8 == (sum >> 1) | (sum << 7)) by (bit_vector);
    assert(sum / 2 + (sum % 2) * 128 <= 255);
}

/// What is known of the free clusters is written to its place in the info sector, and
/// nothing else on the disk changes. A FAT16 volume has no such sector.
pub proof fn law_info_sector_write_is_exact(
    volume: FatVolume,
    disk: Disk,
    block: u32,
    i: int,
)
    requires
        forall|b: u32| (#[trigger] disk[b]).len() == 512,
        0 <= i < 512,
    ensures
        ({
            let after = volume.with_info_sector(disk);
            match volume.fat_specific_info {
                FatSpecificInfo::Fat16(_) => after[block] == disk[block],
                FatSpecificInfo::Fat32(info) => {
                    let place = info.info_location.0;
                    &&& block != place ==> after[block] == disk[block]
                    &&& after[place].len() == 512
                    &&& !(488 <= i < 496) ==> after[place][i] == disk[place][i]
                    &&& 488 <= i < 492 && volume.free_clusters_count is None ==> after[place][i]
                        == disk[place][i]
                    &&& 492 <= i < 496 && volume.next_free_cluster is None ==> after[place][i]
                        == disk[place][i]
                    &&& volume.free_clusters_count matches Some(count) ==> {
                        &&& after[place][488] == count as int % 0x100
                        &&& after[place][489] == count as int / 0x100 % 0x100
                        &&& after[place][490] == count as int / 0x1_0000 % 0x100
                        &&& after[place][491] == count as int / 0x100_0000
                    }
                    &&& volume.next_free_cluster matches Some(next) ==> {
                        &&& after[place][492] == next.0 as int % 0x100
                        &&& after[place][493] == next.0 as int / 0x100 % 0x100
                        &&& after[place][494] == next.0 as int / 0x1_0000 % 0x100
                        &&& after[place][495] == next.0 as int / 0x100_0000
                    }
                },
            }
        }),
{
}

/// Is this one of the five bytes that count as white space?
pub open spec fn is_blank(b: u8) -> bool {
    b == 0x20 || b == 0x09 || b == 0x0A || b == 0x0C || b == 0x0D
}

/// The text of a label is what it begins with, up to the last byte that is no white
/// space.
pub proof fn law_label_text_is_trimmed(bytes: Seq<u8>)
    ensures
        ({
            let text = trim_white(bytes);
            &&& text.len() <= bytes.len()
            &&& text == bytes.take(text.len() as int)
            &&& text.len() > 0 ==> !is_blank(text.last())
            &&& forall|i: int| text.len() <= i < bytes.len() ==> is_blank(#[trigger] bytes[i])
        }),
    decreases bytes.len(),
{
    if bytes.len() > 0 && is_white(bytes.last()) {
        let front = bytes.drop_last();
        law_label_text_is_trimmed(front);
        let text = trim_white(bytes);
        assert(bytes.take(text.len() as int) =~= front.take(text.len() as int));
        assert forall|i: int| text.len() <= i < bytes.len() implies is_blank(
            #[trigger] bytes[i],
        ) by {
            if i < front.len() {
                assert(front[i] == bytes[i]);
            }
        }
    } else {
        assert(bytes.take(bytes.len() as int) =~= bytes);
    }
}

/// A text that is filled up begins with itself, has at least as many characters as it
/// is to have, and nothing behind its own but what it is filled with.
pub proof fn law_text_is_filled_up(text: Seq<char>, width: Option<usize>, fill: char, i: int)
    ensures
        ({
            let shown = filled(text, width, fill);
            &&& width is None ==> shown == text
            &&& width matches Some(w) ==> shown.len() == if text.len() < w {
                w as nat
            } else {
                text.len()
            }
            &&& 0 <= i < text.len() ==> shown[i] == text[i]
            &&& text.len() <= i < shown.len() ==> shown[i] == fill
        }),
{
}

/// Is this a character that a short name may hold, besides the dot in the middle: one
/// that fits into a byte, is no control character and no space, and is none of fifteen
/// signs?
pub open spec fn is_good_in_short_names(c: char) -> bool {
    let n = c as int;
    n == 0x21 || 0x23 <= n <= 0x29 || n == 0x2D || 0x30 <= n <= 0x39 || 0x40 <= n <= 0x5A || 0x5E
        <= n <= 0x7B || 0x7D <= n <= 0xFF
}

/// The byte of a character, where it is one of a lower case letter that of the upper
/// case letter.
pub open spec fn upper_case_byte(c: char) -> int {
    if 0x61 <= c as int <= 0x7A {
        c as int - 0x20
    } else {
        c as int
    }
}

/// The byte number `k` of a short name with this stem and this extension.
pub open spec fn spelled_byte(stem: Seq<char>, extension: Seq<char>, k: int) -> int {
    if k < stem.len() {
        upper_case_byte(stem[k])
    } else if k >= 8 && k - 8 < extension.len() {
        upper_case_byte(extension[k - 8])
    } else {
        0x20
    }
}

/// A good character is added to a short name.
proof fn lemma_good_step(name: PartialName, c: char)
    requires
        is_good_in_short_names(c),
        0 <= name.next < if name.seen_dot {
            11int
        } else {
            8int
        },
    ensures
        name_step(name, c) matches Ok(next) && next == (PartialName {
            contents: name.contents.update(name.next, upper_case_byte(c) as u8),
            next: name.next + 1,
            seen_dot: name.seen_dot,
        }),
{
    if c as u32 <= 0x7F {
        assert(ascii_upper(c) as u8 == upper_case_byte(c));
    }
}

/// A stem is read character by character.
proof fn lemma_stem_is_read(stem: Seq<char>)
    requires
        stem.len() <= 8,
        forall|i: int| 0 <= i < stem.len() ==> is_good_in_short_names(#[trigger] stem[i]),
    ensures
        name_steps(stem) matches Ok(name) && {
            &&& name.next == stem.len()
            &&& !name.seen_dot
            &&& name.contents.len() == 11
            &&& forall|k: int|
                0 <= k < 11 ==> #[trigger] name.contents[k] == spelled_byte(
                    stem,
                    Seq::empty(),
                    k,
                )
        },
    decreases stem.len(),
{
    if stem.len() > 0 {
        let front = stem.drop_last();
        assert forall|i: int| 0 <= i < front.len() implies is_good_in_short_names(
            #[trigger] front[i],
        ) by {
            assert(front[i] == stem[i]);
        }
        lemma_stem_is_read(front);
        assert(is_good_in_short_names(stem[stem.len() - 1]));
        let before = name_steps(front)->Ok_0;
        lemma_good_step(before, stem.last());
        assert forall|k: int| 0 <= k < 11 implies #[trigger] (name_steps(stem)->Ok_0).contents[k]
            == spelled_byte(stem, Seq::empty(), k) by {
            if k != stem.len() - 1 {
                assert(before.contents[k] == spelled_byte(front, Seq::empty(), k));
            }
        }
    }
}

/// A stem, a dot and an extension are read character by character.
proof fn lemma_extension_is_read(stem: Seq<char>, extension: Seq<char>)
    requires
        1 <= stem.len() <= 8,
        extension.len() <= 3,
        forall|i: int| 0 <= i < stem.len() ==> is_good_in_short_names(#[trigger] stem[i]),
        forall|i: int|
            0 <= i < extension.len() ==> is_good_in_short_names(#[trigger] extension[i]),
    ensures
        name_steps(stem + seq!['.'] + extension) matches Ok(name) && {
            &&& name.next == 8 + extension.len()
            &&& name.seen_dot
            &&& name.contents.len() == 11
            &&& forall|k: int|
                0 <= k < 11 ==> #[trigger] name.contents[k] == spelled_byte(stem, extension, k)
        },
    decreases extension.len(),
{
    let s = stem + seq!['.'] + extension;
    if extension.len() == 0 {
        lemma_stem_is_read(stem);
        assert(s.drop_last() =~= stem);
        assert(s.last() == '.');
        assert forall|k: int| 0 <= k < 11 implies #[trigger] (name_steps(s)->Ok_0).contents[k]
            == spelled_byte(stem, extension, k) by {
            assert((name_steps(stem)->Ok_0).contents[k] == spelled_byte(stem, Seq::empty(), k));
        }
    } else {
        let front = extension.drop_last();
        assert forall|i: int| 0 <= i < front.len() implies is_good_in_short_names(
            #[trigger] front[i],
        ) by {
            assert(front[i] == extension[i]);
        }
        lemma_extension_is_read(stem, front);
        assert(s.drop_last() =~= stem + seq!['.'] + front);
        assert(is_good_in_short_names(extension[extension.len() - 1]));
        let before = name_steps(s.drop_last())->Ok_0;
        lemma_good_step(before, s.last());
        assert forall|k: int| 0 <= k < 11 implies #[trigger] (name_steps(s)->Ok_0).contents[k]
            == spelled_byte(stem, extension, k) by {
            if k != 8 + front.len() {
                assert(before.contents[k] == spelled_byte(stem, front, k));
            }
        }
    }
}

/// A stem of up to eight good characters, alone or with a dot and an extension of up
/// to three, is a good short name. Its eleven bytes are those characters in upper
/// case, each part filled up with spaces.
pub proof fn law_short_name_is_spelled_so(stem: Seq<char>, extension: Seq<char>)
    requires
        1 <= stem.len() <= 8,
        extension.len() <= 3,
        forall|i: int| 0 <= i < stem.len() ==> is_good_in_short_names(#[trigger] stem[i]),
        forall|i: int|
            0 <= i < extension.len() ==> is_good_in_short_names(#[trigger] extension[i]),
    ensures
        short_name_of(stem + seq!['.'] + extension) matches Ok(name) && name.len() == 11 && forall|
            k: int,
        |
            0 <= k < 11 ==> #[trigger] name[k] == spelled_byte(stem, extension, k),
        extension.len() == 0 ==> short_name_of(stem) == short_name_of(
            stem + seq!['.'] + extension,
        ),
{
    let s = stem + seq!['.'] + extension;
    lemma_extension_is_read(stem, extension);
    assert(s[0] == stem[0]);
    assert(is_good_in_short_names(stem[0]));
    if extension.len() == 0 {
        lemma_stem_is_read(stem);
        let alone = (name_steps(stem)->Ok_0).contents;
        let dotted = (name_steps(s)->Ok_0).contents;
        assert forall|k: int| 0 <= k < 11 implies alone[k] == #[trigger] dotted[k] by {
            assert(alone[k] == spelled_byte(stem, Seq::empty(), k));
        }
        assert(alone =~= dotted);
    }
}

/// A name with a character that a short name may not hold is no short name.
pub proof fn law_short_names_hold_good_characters(s: Seq<char>, i: int)
    requires
        0 <= i < s.len(),
        !is_good_in_short_names(s[i]),
        s[i] as int != 0x2E,
    ensures
        short_name_of(s) is Err,
{
    lemma_bad_character_is_met(s, i);
}

/// A character that is no good is met.
proof fn lemma_bad_character_is_met(s: Seq<char>, i: int)
    requires
        0 <= i < s.len(),
        !is_good_in_short_names(s[i]),
        s[i] as int != 0x2E,
    ensures
        name_steps(s) is Err,
    decreases s.len(),
{
    if i < s.len() - 1 {
        assert(s.drop_last()[i] == s[i]);
        lemma_bad_character_is_met(s.drop_last(), i);
    } else {
        lemma_good_or_not(s[i]);
    }
}

/// The short names of the directory itself and of its parent are spelled with dots
/// alone. Nothing at all names the directory too.
pub proof fn law_dots_name_directories(k: int)
    requires
        0 <= k < 11,
    ensures
        short_name_of(seq!['.', '.']) matches Ok(name) && name.len() == 11 && name[k] == if k < 2 {
            0x2Eint
        } else {
            0x20
        },
        short_name_of(seq!['.']) matches Ok(name) && name.len() == 11 && name[k] == if k < 1 {
            0x2Eint
        } else {
            0x20
        },
        short_name_of(Seq::empty()) == short_name_of(seq!['.']),
{
    assert(seq!['.'].len() != seq!['.', '.'].len());
}

/// A name is read up to the first character that breaks it, and is refused for that
/// one whatever follows. In a stem that is a character that no short name holds, one
/// too many, or a dot with nothing in front of it.
pub proof fn law_stem_is_broken_off(stem: Seq<char>, c: char, rest: Seq<char>)
    requires
        stem.len() <= 8,
        forall|i: int| 0 <= i < stem.len() ==> is_good_in_short_names(#[trigger] stem[i]),
        stem + seq![c] + rest != seq!['.'],
        stem + seq![c] + rest != seq!['.', '.'],
    ensures
        ({
            let result = short_name_of(stem + seq![c] + rest);
            &&& !is_good_in_short_names(c) && c as int != 0x2E ==> result == Err::<
                Seq<u8>,
                FilenameError,
            >(FilenameError::InvalidCharacter)
            &&& is_good_in_short_names(c) && stem.len() == 8 ==> result == Err::<
                Seq<u8>,
                FilenameError,
            >(FilenameError::NameTooLong)
            &&& c as int == 0x2E && stem.len() == 0 ==> result == Err::<Seq<u8>, FilenameError>(
                FilenameError::MisplacedPeriod,
            )
        }),
{
    let read = stem + seq![c];
    lemma_stem_is_read(stem);
    assert(read.drop_last() =~= stem);
    assert(read.last() == c);
    lemma_good_or_not(c);
    lemma_refused_at_once(read, rest);
}

/// It is the same in an extension. There a second dot is one too many as soon as a
/// character stands between the two.
pub proof fn law_extension_is_broken_off(
    stem: Seq<char>,
    extension: Seq<char>,
    c: char,
    rest: Seq<char>,
)
    requires
        1 <= stem.len() <= 8,
        extension.len() <= 3,
        forall|i: int| 0 <= i < stem.len() ==> is_good_in_short_names(#[trigger] stem[i]),
        forall|i: int|
            0 <= i < extension.len() ==> is_good_in_short_names(#[trigger] extension[i]),
    ensures
        ({
            let result = short_name_of(stem + seq!['.'] + extension + seq![c] + rest);
            &&& !is_good_in_short_names(c) && c as int != 0x2E ==> result == Err::<
                Seq<u8>,
                FilenameError,
            >(FilenameError::InvalidCharacter)
            &&& is_good_in_short_names(c) && extension.len() == 3 ==> result == Err::<
                Seq<u8>,
                FilenameError,
            >(FilenameError::NameTooLong)
            &&& c as int == 0x2E && extension.len() > 0 ==> result == Err::<
                Seq<u8>,
                FilenameError,
            >(FilenameError::MisplacedPeriod)
        }),
{
    let read = stem + seq!['.'] + extension + seq![c];
    lemma_extension_is_read(stem, extension);
    assert(read.drop_last() =~= stem + seq!['.'] + extension);
    assert(read.last() == c);
    lemma_good_or_not(c);
    assert(is_good_in_short_names(stem[0]));
    assert((read + rest)[0] == stem[0]);
    lemma_refused_at_once(read, rest);
}

/// A second dot right behind the first one makes no difference.
pub proof fn law_second_dot_makes_no_difference(stem: Seq<char>, rest: Seq<char>)
    requires
        1 <= stem.len() <= 8,
        forall|i: int| 0 <= i < stem.len() ==> is_good_in_short_names(#[trigger] stem[i]),
    ensures
        short_name_of(stem + seq!['.', '.'] + rest) == short_name_of(stem + seq!['.'] + rest),
{
    lemma_second_dot(stem, rest);
    assert(is_good_in_short_names(stem[0]));
    assert((stem + seq!['.', '.'] + rest)[0] == stem[0]);
    assert((stem + seq!['.'] + rest)[0] == stem[0]);
}

/// The two dots are read as one.
proof fn lemma_second_dot(stem: Seq<char>, rest: Seq<char>)
    requires
        1 <= stem.len() <= 8,
        forall|i: int| 0 <= i < stem.len() ==> is_good_in_short_names(#[trigger] stem[i]),
    ensures
        name_steps(stem + seq!['.', '.'] + rest) == name_steps(stem + seq!['.'] + rest),
    decreases rest.len(),
{
    let one = stem + seq!['.'] + rest;
    let two = stem + seq!['.', '.'] + rest;
    if rest.len() == 0 {
        lemma_stem_is_read(stem);
        assert(one.drop_last() =~= stem);
        assert(two.drop_last() =~= one);
        assert(one.last() == '.' && two.last() == '.');
    } else {
        lemma_second_dot(stem, rest.drop_last());
        assert(one.drop_last() =~= stem + seq!['.'] + rest.drop_last());
        assert(two.drop_last() =~= stem + seq!['.', '.'] + rest.drop_last());
        assert(one.last() == two.last());
    }
}

/// A name whose beginning is refused is refused in the same way.
proof fn lemma_refused_at_once(read: Seq<char>, rest: Seq<char>)
    requires
        read + rest != seq!['.'],
        read + rest != seq!['.', '.'],
        read.len() > 0,
    ensures
        name_steps(read) matches Err(error) ==> short_name_of(read + rest) == Err::<
            Seq<u8>,
            FilenameError,
        >(error),
{
    assert((read + rest).take(read.len() as int) =~= read);
    if name_steps(read) is Err {
        lemma_name_error_stays(read + rest, read.len() as int);
    }
}

/// A label is stored as the bytes of its characters, with spaces behind them, and its
/// text is read from the bytes in the same way.
pub proof fn law_label_is_its_characters(name: Seq<char>, bytes: Seq<u8>, i: int)
    requires
        label_error(name) is None,
    ensures
        ({
            let stored = label_bytes(name);
            let text = latin1(bytes);
            &&& stored.len() == 11
            &&& 0 <= i < name.len() ==> stored[i] == name[i] as int
            &&& name.len() <= i < 11 ==> stored[i] == 0x20
            &&& text.len() == bytes.len()
            &&& 0 <= i < bytes.len() ==> text[i] as int == bytes[i]
        }),
{
    if 0 <= i < name.len() {
        assert(label_char(name[i]));
        lemma_label_byte(name[i]);
    }
}

/// A character that a label can hold is one byte.
proof fn lemma_label_byte(c: char)
    requires
        label_char(c),
    ensures
        c as u8 == c as int,
{
}

/// An instant is stored field by field. A field that is too large for its bits loses
/// the upper ones, and a year before 1980 is stored as that year.
pub proof fn law_instant_is_stored_so(t: Timestamp)
    ensures
        ({
            let raw = fat_time_bytes(t);
            let time = raw[0] + 0x100 * raw[1];
            let date = raw[2] + 0x100 * raw[3];
            &&& raw.len() == 4
            &&& time / 0x800 == t.hours as int % 0x20
            &&& time / 0x20 % 0x40 == t.minutes as int % 0x40
            &&& time % 0x20 == t.seconds as int / 2 % 0x20
            &&& date / 0x200 == if t.year_since_1970 < 10 {
                0
            } else {
                (t.year_since_1970 - 10) % 0x80
            }
            &&& date / 0x20 % 0x10 == (t.zero_indexed_month + 1) % 0x10
            &&& date % 0x20 == (t.zero_indexed_day + 1) % 0x20
        }),
{
    let raw = fat_time_bytes(t);
    assert(raw[0] + 0x100 * raw[1] == fat_time(t));
    assert(raw[2] + 0x100 * raw[3] == fat_date(t));
    lemma_packed_date(
        if t.year_since_1970 < 10 {
            0
        } else {
            (t.year_since_1970 - 10) % 0x80
        },
        (t.zero_indexed_month + 1) % 0x10,
        (t.zero_indexed_day + 1) % 0x20,
    );
    lemma_packed_time(
        t.hours as int % 0x20,
        t.minutes as int % 0x40,
        t.seconds as int / 2 % 0x20,
    );
}

/// A character is good, a dot, or refused.
proof fn lemma_good_or_not(c: char)
    ensures
        is_good_in_short_names(c) || c as int == 0x2E || reserved_in_short_names(c) || c == ' '
            || c as u32 > 0xFF,
{
}

} // verus!
