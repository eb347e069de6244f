//! Long names: how they are cut into pieces of thirteen code units, and how a
//! name is compared with such pieces.

use crate::bytes::{le16_bytes, write_u16};
use crate::entry::{slot_is_lfn, slot_is_valid, slot_lfn, Attributes};
use crate::name::FilenameError;
use vstd::prelude::*;

verus! {

/// How many code units a long name can have at most.
pub const MAX_LFN_UNITS: usize = 255;

/// How many pieces a long name can have at most.
pub const MAX_LFN_ENTRIES: usize = 20;

/// How many slots an entry can take at most: the pieces of its long name and
/// the entry itself.
pub const MAX_LFN_SLOTS: usize = 21;

/// How many code units a piece of a long name holds.
pub const LFN_CHARS_PER_ENTRY: usize = 13;

/// The UTF-16 code units of a character: one, or a high and a low surrogate.
pub open spec fn utf16_units(c: char) -> Seq<u16> {
    let n = c as u32;
    if n < 0x1_0000 {
        seq![n as u16]
    } else {
        seq![
            (0xD800 + (n - 0x1_0000) / 0x400) as u16,
            (0xDC00 + (n - 0x1_0000) % 0x400) as u16,
        ]
    }
}

/// The UTF-16 code units of a string.
pub open spec fn utf16(s: Seq<char>) -> Seq<u16>
    decreases s.len(),
{
    if s.len() == 0 {
        Seq::empty()
    } else {
        utf16(s.drop_last()) + utf16_units(s.last())
    }
}

/// Is `c` one of the characters that no long name holds? U+FFFF is the padding
/// behind a name, and could not be told from it.
pub open spec fn reserved_in_long_names(c: char) -> bool {
    ||| c as u32 <= 0x1F
    ||| c == '"' || c == '*' || c == '/' || c == ':' || c == '<' || c == '>' || c == '?'
    ||| c == '\\' || c == '|'
    ||| c as u32 == 0xFFFF
}

/// How many code units `s` has as a long name, or what is wrong with it.
pub open spec fn long_name_length(s: Seq<char>) -> Result<nat, FilenameError> {
    if exists|i: int| 0 <= i < s.len() && reserved_in_long_names(#[trigger] s[i]) {
        Err(FilenameError::InvalidCharacter)
    } else if s.len() == 0 {
        Err(FilenameError::FilenameEmpty)
    } else if utf16(s).len() > MAX_LFN_UNITS {
        Err(FilenameError::NameTooLong)
    } else {
        Ok(utf16(s).len())
    }
}

/// A string has at least one code unit for each character, and at most two.
pub proof fn lemma_utf16_len(s: Seq<char>)
    ensures
        s.len() <= utf16(s).len() <= 2 * s.len(),
    decreases s.len(),
{
    if s.len() > 0 {
        lemma_utf16_len(s.drop_last());
    }
}

/// The code units of a beginning of `s` are a beginning of those of `s`.
pub proof fn lemma_utf16_prefix(s: Seq<char>, n: int)
    requires
        0 <= n <= s.len(),
    ensures
        utf16(s.take(n)).len() <= utf16(s).len(),
        utf16(s.take(n)) == utf16(s).take(utf16(s.take(n)).len() as int),
    decreases s.len() - n,
{
    if n == s.len() {
        assert(s.take(n) =~= s);
    } else {
        lemma_utf16_prefix(s, n + 1);
        assert(s.take(n + 1).drop_last() =~= s.take(n));
        assert(utf16(s.take(n)) =~= utf16(s.take(n + 1)).take(utf16(s.take(n)).len() as int));
        assert(utf16(s.take(n)) =~= utf16(s).take(utf16(s.take(n)).len() as int));
    }
}

/// Check that `name` can be a long name, and count its code units.
pub fn validate_long_filename(name: &str) -> (result: Result<usize, FilenameError>)
    ensures
        match long_name_length(name@) {
            Ok(length) => result matches Ok(units) && units == length,
            Err(error) => result == Err::<usize, FilenameError>(error),
        },
{
    let mut units: usize = 0;
    assert(name@.take(0) =~= Seq::<char>::empty());
    for c in it: name.chars()
        invariant
            it.seq() == name@,
            forall|i: int| 0 <= i < it.index() ==> !reserved_in_long_names(#[trigger] name@[i]),
            units == if utf16(name@.take(it.index())).len() > 256 {
                256
            } else {
                utf16(name@.take(it.index())).len()
            },
    {
        proof {
            assert(name@.take(it.index() + 1).drop_last() =~= name@.take(it.index()));
            assert(name@[it.index()] == c);
        }
        if c as u32 <= 0x1F || c == '"' || c == '*' || c == '/' || c == ':' || c == '<' || c == '>'
            || c == '?' || c == '\\' || c == '|' || c as u32 == 0xFFFF {
            return Err(FilenameError::InvalidCharacter);
        }
        // Past the limit, how far does not matter
        let more: usize = if (c as u32) < 0x1_0000 {
            1
        } else {
            2
        };
        units = if units + more > 256 {
            256
        } else {
            units + more
        };
    }
    proof {
        assert(name@.take(name@.len() as int) =~= name@);
        lemma_utf16_len(name@);
    }
    if units == 0 {
        return Err(FilenameError::FilenameEmpty);
    }
    if units > MAX_LFN_UNITS {
        return Err(FilenameError::NameTooLong);
    }
    Ok(units)
}

/// The code units of a long name, and zeros behind them.
pub(crate) fn encode_long_filename(name: &str) -> (units: [u16; 255])
    requires
        utf16(name@).len() <= 255,
    ensures
        units@.take(utf16(name@).len() as int) == utf16(name@),
{
    let mut units = [0u16; 255];
    let mut length: usize = 0;
    assert(name@.take(0) =~= Seq::<char>::empty());
    for c in it: name.chars()
        invariant
            it.seq() == name@,
            utf16(name@).len() <= 255,
            length == utf16(name@.take(it.index())).len(),
            length <= 255,
            units@.take(length as int) == utf16(name@.take(it.index())),
    {
        proof {
            assert(name@.take(it.index() + 1).drop_last() =~= name@.take(it.index()));
            lemma_utf16_prefix(name@, it.index() + 1);
        }
        let ghost before = units@.take(length as int);
        let ghost start = length as int;
        let code: u32 = c as u32;
        if code < 0x1_0000 {
            units[length] = code as u16;
            length += 1;
        } else {
            units[length] = (0xD800 + (code - 0x1_0000) / 0x400) as u16;
            units[length + 1] = (0xDC00 + (code - 0x1_0000) % 0x400) as u16;
            length += 2;
        }
        assert(units@.take(length as int) =~= before + utf16_units(c));
    }
    assert(name@.take(name@.len() as int) =~= name@);
    units
}

/// A piece of a long name, filled up to thirteen code units: with a zero, if
/// there is room for one, and with 0xFFFF behind that.
pub open spec fn padded(name: Seq<u16>) -> Seq<u16> {
    Seq::new(
        13,
        |i: int|
            if i < name.len() {
                name[i]
            } else if i == name.len() {
                0u16
            } else {
                0xFFFFu16
            },
    )
}

/// The 32 bytes by which a piece of a long name is stored.
pub open spec fn lfn_bytes(sequence: u8, is_last: bool, checksum: u8, name: Seq<u16>) -> Seq<u8> {
    let u = padded(name);
    let first = if is_last {
        sequence | 0x40
    } else {
        sequence
    };
    seq![first] + le16_bytes(u[0]) + le16_bytes(u[1]) + le16_bytes(u[2]) + le16_bytes(u[3])
        + le16_bytes(u[4]) + seq![0x0F, 0, checksum] + le16_bytes(u[5]) + le16_bytes(u[6])
        + le16_bytes(u[7]) + le16_bytes(u[8]) + le16_bytes(u[9]) + le16_bytes(u[10]) + seq![0, 0]
        + le16_bytes(u[11]) + le16_bytes(u[12])
}

/// A piece of a long name is read back as it was stored.
pub proof fn lemma_lfn_round_trip(sequence: u8, is_last: bool, checksum: u8, name: Seq<u16>)
    requires
        1 <= sequence <= MAX_LFN_ENTRIES,
    ensures
        ({
            let raw = lfn_bytes(sequence, is_last, checksum, name);
            &&& raw.len() == 32
            &&& slot_is_valid(raw)
            &&& slot_is_lfn(raw)
            &&& slot_lfn(raw).is_start == is_last
            &&& slot_lfn(raw).sequence == sequence
            &&& slot_lfn(raw).csum == checksum
            &&& slot_lfn(raw).units == padded(name)
        }),
{
    assert(sequence | 0x40 == sequence + 0x40) by (bit_vector)
        requires
            sequence <= 20,
    ;
    let raw = lfn_bytes(sequence, is_last, checksum, name);
    assert(slot_lfn(raw).units =~= padded(name));
}

/// Serialize a piece of a long name.
#[verifier::rlimit(60)]
#[verifier::spinoff_prover]
pub(crate) fn serialize_lfn_entry(sequence: u8, is_last: bool, checksum: u8, name: &[u16]) -> (raw:
    [u8; 32])
    requires
        0 < name@.len() <= 13,
    ensures
        raw@ == lfn_bytes(sequence, is_last, checksum, name@),
{
    let mut units = [0xFFFFu16; 13];
    let mut i: usize = 0;
    while i < name.len()
        invariant
            i <= name@.len() <= 13,
            forall|k: int| 0 <= k < i ==> units@[k] == name@[k],
            forall|k: int| i <= k < 13 ==> units@[k] == 0xFFFF,
        decreases name@.len() - i,
    {
        units[i] = name[i];
        i += 1;
    }
    if i < 13 {
        units[i] = 0;
    }
    assert(units@ =~= padded(name@));
    let first: u8 = if is_last {
        sequence | 0x40
    } else {
        sequence
    };
    let mut raw = [0u8; 32];
    raw[0] = first;
    raw[11] = Attributes::LFN;
    raw[13] = checksum;
    write_u16(&mut raw, 1, units[0]);
    write_u16(&mut raw, 3, units[1]);
    write_u16(&mut raw, 5, units[2]);
    write_u16(&mut raw, 7, units[3]);
    write_u16(&mut raw, 9, units[4]);
    write_u16(&mut raw, 14, units[5]);
    write_u16(&mut raw, 16, units[6]);
    write_u16(&mut raw, 18, units[7]);
    write_u16(&mut raw, 20, units[8]);
    write_u16(&mut raw, 22, units[9]);
    write_u16(&mut raw, 24, units[10]);
    write_u16(&mut raw, 28, units[11]);
    write_u16(&mut raw, 30, units[12]);
    assert(raw@ =~= lfn_bytes(sequence, is_last, checksum, name@));
    raw
}

/// What `char::to_lowercase` gives for a character.
pub uninterp spec fn lowercase(c: char) -> Seq<char>;

/// Calls `char::to_lowercase`, which goes by the Unicode tables of the standard
/// library: nothing more is claimed of the characters that it gives than that
/// they depend on `c` alone.
#[verifier::external_body]
fn to_lowercase(c: char) -> (mapped: Vec<char>)
    ensures
        mapped@ == lowercase(c),
{
    c.to_lowercase().collect()
}

/// Calls `char::from_u32`: every number up to 0x10FFFF that is no surrogate is
/// that of a character.
#[verifier::external_body]
pub(crate) fn char_from_u32(code: u32) -> (c: Option<char>)
    ensures
        c is Some <==> (code <= 0xD7FF || 0xE000 <= code <= 0x10FFFF),
        c matches Some(c) ==> c == code as char,
{
    char::from_u32(code)
}

/// Do `a` and `b` count as the same character? With `fold_case` they do if
/// their lower case forms agree.
pub open spec fn same_char(a: char, b: char, fold_case: bool) -> bool {
    a == b || fold_case && lowercase(a) == lowercase(b)
}

/// Do two characters with these lower case forms differ by no more than case?
pub fn same_lower_case(a: &[char], b: &[char]) -> (same: bool)
    ensures
        same == (a@ == b@),
{
    if a.len() != b.len() {
        return false;
    }
    let mut i: usize = 0;
    while i < a.len()
        invariant
            i <= a@.len(),
            a@.len() == b@.len(),
            forall|k: int| 0 <= k < i ==> a@[k] == b@[k],
        decreases a@.len() - i,
    {
        if a[i] != b[i] {
            return false;
        }
        i += 1;
    }
    assert(a@ =~= b@);
    true
}

/// Take `c` off the end of `s`, optionally ignoring case.
fn strip_last_char(s: &str, c: char, fold_case: bool) -> (result: Option<&str>)
    ensures
        result is Some <==> s@.len() > 0 && same_char(s@.last(), c, fold_case),
        result matches Some(rest) ==> rest@ == s@.drop_last(),
{
    let length: usize = s.unicode_len();
    if length == 0 {
        return None;
    }
    let last = s.get_char(length - 1);
    if last != c {
        if !fold_case {
            return None;
        }
        if !same_lower_case(&to_lowercase(last), &to_lowercase(c)) {
            return None;
        }
    }
    let rest = s.substring_char(0, length - 1);
    assert(rest@ =~= s@.drop_last());
    Some(rest)
}

/// What comparing the end of a name with a piece of a long name leads to.
pub struct Stripped {
    /// Is it the piece that the name ends with?
    pub same: bool,
    /// The part of the name in front of the piece, or as far as it went.
    pub remaining: Seq<char>,
    /// A low surrogate whose high half is yet to come.
    pub pending: Option<u16>,
}

/// The character that two surrogates stand for.
pub open spec fn surrogate_pair(high: u16, low: u16) -> char {
    (0x1_0000 + (high - 0xD800) * 0x400 + (low - 0xDC00)) as char
}

/// Take the code units of a piece of a long name, from its end, off the end of
/// `remaining`.
///
/// Anything above U+FFFF is stored as a high and a low surrogate, so walking
/// backwards the low half is met first and has to be held until its high half
/// turns up. That may not happen until the next piece, because thirteen code
/// units do not respect character boundaries.
pub open spec fn strip_units(
    units: Seq<u16>,
    remaining: Seq<char>,
    pending: Option<u16>,
    fold_case: bool,
) -> Stripped
    decreases units.len(),
{
    if units.len() == 0 {
        Stripped { same: true, remaining, pending }
    } else {
        let unit = units.last();
        let rest = units.drop_last();
        if 0xDC00 <= unit <= 0xDFFF && pending is None {
            strip_units(rest, remaining, Some(unit), fold_case)
        } else if 0xD800 <= unit <= 0xDBFF {
            match pending {
                Some(low) => if remaining.len() > 0 && same_char(
                    remaining.last(),
                    surrogate_pair(unit, low),
                    fold_case,
                ) {
                    strip_units(rest, remaining.drop_last(), None, fold_case)
                } else {
                    Stripped { same: false, remaining, pending: None }
                },
                None => Stripped { same: false, remaining, pending },
            }
        } else if pending is Some {
            Stripped { same: false, remaining, pending }
        } else if remaining.len() > 0 && same_char(remaining.last(), unit as char, fold_case) {
            strip_units(rest, remaining.drop_last(), None, fold_case)
        } else {
            Stripped { same: false, remaining, pending }
        }
    }
}

/// Comparing two pieces in a row is comparing the one behind and then the one in
/// front.
pub proof fn lemma_strip_concat(
    front: Seq<u16>,
    back: Seq<u16>,
    remaining: Seq<char>,
    pending: Option<u16>,
    fold_case: bool,
)
    ensures
        ({
            let s = strip_units(back, remaining, pending, fold_case);
            strip_units(front + back, remaining, pending, fold_case) == if s.same {
                strip_units(front, s.remaining, s.pending, fold_case)
            } else {
                s
            }
        }),
    decreases back.len(),
{
    if back.len() == 0 {
        assert(front + back =~= front);
    } else {
        let rest = back.drop_last();
        assert((front + back).drop_last() =~= front + rest);
        assert((front + back).last() == back.last());
        let unit = back.last();
        if 0xDC00 <= unit <= 0xDFFF && pending is None {
            lemma_strip_concat(front, rest, remaining, Some(unit), fold_case);
        } else {
            lemma_strip_concat(front, rest, remaining.drop_last(), None, fold_case);
        }
    }
}

/// The code units of one character stand for that character.
pub proof fn lemma_char_units(c: char)
    ensures
        ({
            let units = utf16_units(c);
            if (c as u32) < 0x1_0000 {
                &&& units.len() == 1
                &&& !(0xD800 <= units[0] <= 0xDFFF)
                &&& units[0] as char == c
                &&& units[0] == c as u32
            } else {
                &&& units.len() == 2
                &&& 0xD800 <= units[0] <= 0xDBFF
                &&& 0xDC00 <= units[1] <= 0xDFFF
                &&& surrogate_pair(units[0], units[1]) == c
            }
        }),
{
    let n = c as u32;
    if n >= 0x1_0000 {
        let m = n - 0x1_0000;
        assert(m < 0x10_0000);
        assert(m == m / 0x400 * 0x400 + m % 0x400);
    }
}

/// Does `sought` count as the name `written`, character by character?
pub open spec fn reads_as(sought: Seq<char>, written: Seq<char>, fold_case: bool) -> bool {
    sought.len() == written.len() && forall|i: int|
        0 <= i < sought.len() ==> same_char(#[trigger] sought[i], written[i], fold_case)
}

/// A name ends with what it counts as, and nothing is left in front of it.
pub proof fn lemma_strip_whole(s: Seq<char>, sought: Seq<char>, fold_case: bool)
    requires
        reads_as(sought, s, fold_case),
    ensures
        strip_units(utf16(s), sought, None, fold_case) == (Stripped {
            same: true,
            remaining: Seq::empty(),
            pending: None,
        }),
    decreases s.len(),
{
    if s.len() == 0 {
        assert(sought =~= Seq::empty());
    } else {
        let c = s.last();
        let front = utf16(s.drop_last());
        let units = utf16_units(c);
        lemma_char_units(c);
        lemma_strip_concat(front, units, sought, None, fold_case);
        assert(same_char(sought[s.len() - 1], s[s.len() - 1], fold_case));
        if (c as u32) < 0x1_0000 {
            assert(units.drop_last() =~= Seq::empty());
        } else {
            assert(units.drop_last().drop_last() =~= Seq::empty());
            assert(units.drop_last().last() == units[0]);
        }
        reveal_with_fuel(strip_units, 3);
        assert(strip_units(units, sought, None, fold_case) == (Stripped {
            same: true,
            remaining: sought.drop_last(),
            pending: None,
        }));
        lemma_strip_whole(s.drop_last(), sought.drop_last(), fold_case);
    }
}

/// Do these code units spell a text that counts as the name `sought`?
pub open spec fn spells(units: Seq<u16>, sought: Seq<char>, fold_case: bool) -> bool {
    exists|text: Seq<char>| #[trigger] utf16(text) == units && reads_as(sought, text, fold_case)
}

/// Two surrogates are the code units of the character that they stand for.
proof fn lemma_pair_units(high: u16, low: u16)
    requires
        0xD800 <= high <= 0xDBFF,
        0xDC00 <= low <= 0xDFFF,
    ensures
        utf16_units(surrogate_pair(high, low)) == seq![high, low],
{
    let c = surrogate_pair(high, low);
    let n = 0x1_0000 + (high - 0xD800) * 0x400 + (low - 0xDC00);
    assert(c as u32 == n);
    assert((n - 0x1_0000) / 0x400 == high - 0xD800);
    assert((n - 0x1_0000) % 0x400 == low - 0xDC00);
    assert(utf16_units(c) =~= seq![high, low]);
}

/// Code units that can be taken off the end of a name, with no half of a
/// character left over, are those of a text that the name ends with.
proof fn lemma_stripped_text(units: Seq<u16>, sought: Seq<char>, fold_case: bool) -> (text: Seq<
    char,
>)
    requires
        strip_units(units, sought, None, fold_case).same,
        strip_units(units, sought, None, fold_case).pending is None,
    ensures
        ({
            let left = strip_units(units, sought, None, fold_case).remaining;
            &&& utf16(text) == units
            &&& sought.len() == left.len() + text.len()
            &&& reads_as(sought.skip(left.len() as int), text, fold_case)
        }),
    decreases units.len(),
{
    let left = strip_units(units, sought, None, fold_case).remaining;
    if units.len() == 0 {
        assert(utf16(Seq::empty()) =~= units);
        Seq::empty()
    } else {
        let unit = units.last();
        let paired = 0xDC00 <= unit <= 0xDFFF;
        let rest = if paired {
            units.drop_last().drop_last()
        } else {
            units.drop_last()
        };
        let c = if paired {
            surrogate_pair(units.drop_last().last(), unit)
        } else {
            unit as char
        };
        if paired {
            reveal_with_fuel(strip_units, 3);
            lemma_pair_units(units.drop_last().last(), unit);
        } else {
            assert(utf16_units(c) =~= seq![unit]);
        }
        let front = lemma_stripped_text(rest, sought.drop_last(), fold_case);
        let text = front.push(c);
        assert(text.drop_last() =~= front);
        assert(utf16(text) =~= units);
        let end = sought.skip(left.len() as int);
        assert forall|i: int| 0 <= i < end.len() implies same_char(
            #[trigger] end[i],
            text[i],
            fold_case,
        ) by {
            if i < front.len() {
                assert(end[i] == sought.drop_last().skip(left.len() as int)[i]);
            }
        }
        text
    }
}

/// Taking the code units of a long name off the end of a name leaves nothing, and
/// no half of a character, just where the long name counts as that name.
pub proof fn law_strips_what_it_spells(units: Seq<u16>, sought: Seq<char>, fold_case: bool)
    ensures
        strip_units(units, sought, None, fold_case) == (Stripped {
            same: true,
            remaining: Seq::empty(),
            pending: None,
        }) <==> spells(units, sought, fold_case),
{
    let s = strip_units(units, sought, None, fold_case);
    if s == (Stripped { same: true, remaining: Seq::empty(), pending: None }) {
        let text = lemma_stripped_text(units, sought, fold_case);
        assert(sought.skip(0) =~= sought);
        assert(utf16(text) == units && reads_as(sought, text, fold_case));
    }
    if spells(units, sought, fold_case) {
        let text = choose|text: Seq<char>| #[trigger]
            utf16(text) == units && reads_as(sought, text, fold_case);
        lemma_strip_whole(text, sought, fold_case);
    }
}

/// All the code units of `pieces`, one piece behind the other.
pub open spec fn joined(pieces: Seq<Seq<u16>>) -> Seq<u16>
    decreases pieces.len(),
{
    if pieces.len() == 0 {
        Seq::empty()
    } else {
        joined(pieces.drop_last()) + pieces.last()
    }
}

/// Take one piece after the other, from the last one on, off the end of
/// `remaining`.
pub open spec fn strip_pieces(
    pieces: Seq<Seq<u16>>,
    remaining: Seq<char>,
    pending: Option<u16>,
    fold_case: bool,
) -> Stripped
    decreases pieces.len(),
{
    if pieces.len() == 0 {
        Stripped { same: true, remaining, pending }
    } else {
        let s = strip_units(pieces.last(), remaining, pending, fold_case);
        if s.same {
            strip_pieces(pieces.drop_last(), s.remaining, s.pending, fold_case)
        } else {
            s
        }
    }
}

/// Where a long name is cut into pieces does not matter, be it in the middle of a
/// character: taking off the pieces is taking off the whole.
pub proof fn law_cuts_do_not_matter(
    pieces: Seq<Seq<u16>>,
    remaining: Seq<char>,
    pending: Option<u16>,
    fold_case: bool,
)
    ensures
        strip_pieces(pieces, remaining, pending, fold_case) == strip_units(
            joined(pieces),
            remaining,
            pending,
            fold_case,
        ),
    decreases pieces.len(),
{
    if pieces.len() > 0 {
        let front = pieces.drop_last();
        let s = strip_units(pieces.last(), remaining, pending, fold_case);
        lemma_strip_concat(joined(front), pieces.last(), remaining, pending, fold_case);
        law_cuts_do_not_matter(front, s.remaining, s.pending, fold_case);
    }
}

/// A text spells what counts as that text, and nothing else.
pub proof fn law_text_spells_itself(text: Seq<char>, sought: Seq<char>, fold_case: bool)
    ensures
        spells(utf16(text), sought, fold_case) <==> reads_as(sought, text, fold_case),
{
    if spells(utf16(text), sought, fold_case) {
        let other = choose|other: Seq<char>| #[trigger]
            utf16(other) == utf16(text) && reads_as(sought, other, fold_case);
        lemma_same_units(text, other);
    }
}

/// Texts with the same code units are the same.
pub proof fn lemma_same_units(a: Seq<char>, b: Seq<char>)
    requires
        utf16(a) == utf16(b),
    ensures
        a == b,
    decreases a.len(),
{
    if a.len() > 0 {
        lemma_char_units(a.last());
    }
    if b.len() > 0 {
        lemma_char_units(b.last());
    }
    if a.len() > 0 && b.len() > 0 {
        let (u, v) = (utf16_units(a.last()), utf16_units(b.last()));
        assert(utf16(a).last() == u.last());
        assert(utf16(b).last() == v.last());
        assert(u.len() == v.len());
        if u.len() == 2 {
            assert(utf16(a)[utf16(a).len() - 2] == u[0]);
            assert(utf16(b)[utf16(b).len() - 2] == v[0]);
        }
        assert(a.last() == b.last());
        let n = utf16(a).len() - u.len();
        assert(utf16(a).take(n) =~= utf16(a.drop_last()));
        assert(utf16(b).take(n) =~= utf16(b.drop_last()));
        lemma_same_units(a.drop_last(), b.drop_last());
        assert(a =~= a.drop_last().push(a.last()));
        assert(b =~= b.drop_last().push(b.last()));
    } else {
        if a.len() > 0 {
            assert(utf16(a).last() == utf16_units(a.last()).last());
            assert(utf16(b).len() == 0);
        }
        if b.len() > 0 {
            assert(utf16(b).last() == utf16_units(b.last()).last());
            assert(utf16(a).len() == 0);
        }
        assert(a =~= b);
    }
}

/// `s` without the copies of `x` at its end.
pub open spec fn trim_end(s: Seq<u16>, x: u16) -> Seq<u16>
    decreases s.len(),
{
    if s.len() > 0 && s.last() == x {
        trim_end(s.drop_last(), x)
    } else {
        s
    }
}

/// The code units of the last piece of a name, without the padding.
pub open spec fn trimmed(units: Seq<u16>) -> Seq<u16> {
    trim_end(trim_end(units, 0xFFFF), 0)
}

/// How many code units of the last piece of a name are no padding.
pub(crate) fn trimmed_length(units: &[u16; 13]) -> (length: usize)
    ensures
        length <= 13,
        units@.take(length as int) == trimmed(units@),
{
    let mut length: usize = 13;
    assert(units@.take(13) =~= units@);
    while length > 0 && units[length - 1] == 0xFFFF
        invariant
            length <= 13,
            trim_end(units@, 0xFFFF) == trim_end(units@.take(length as int), 0xFFFF),
        decreases length,
    {
        assert(units@.take(length as int).drop_last() =~= units@.take(length - 1));
        length -= 1;
    }
    while length > 0 && units[length - 1] == 0
        invariant
            length <= 13,
            trimmed(units@) == trim_end(units@.take(length as int), 0),
        decreases length,
    {
        assert(units@.take(length as int).drop_last() =~= units@.take(length - 1));
        length -= 1;
    }
    length
}

/// Match the code units of a piece of a long name off the end of `remaining`.
///
/// The first part of the result says whether this can be the name we are
/// looking for; the others are what is left of it, and a low surrogate whose
/// high half is yet to come. The latter is to be handed on to the next call.
pub(crate) fn strip_lfn_words<'a>(
    units: &[u16],
    remaining: &'a str,
    pending_low: Option<u16>,
    fold_case: bool,
) -> (result: (bool, &'a str, Option<u16>))
    requires
        pending_low matches Some(low) ==> 0xDC00 <= low <= 0xDFFF,
    ensures
        ({
            let stripped = strip_units(units@, remaining@, pending_low, fold_case);
            &&& result.0 == stripped.same
            &&& result.1@ == stripped.remaining
            &&& result.2 == stripped.pending
            &&& result.2 matches Some(low) ==> 0xDC00 <= low <= 0xDFFF
        }),
{
    let mut rest = remaining;
    let mut pending = pending_low;
    let mut i: usize = units.len();
    assert(units@.take(i as int) =~= units@);
    while i > 0
        invariant
            i <= units@.len(),
            pending matches Some(low) ==> 0xDC00 <= low <= 0xDFFF,
            strip_units(units@.take(i as int), rest@, pending, fold_case) == strip_units(
                units@,
                remaining@,
                pending_low,
                fold_case,
            ),
        decreases i,
    {
        assert(units@.take(i as int).drop_last() =~= units@.take(i - 1));
        assert(units@.take(i as int).last() == units@[i - 1]);
        i -= 1;
        let unit: u16 = units[i];
        if 0xDC00 <= unit && unit <= 0xDFFF && pending.is_none() {
            // Low half. Its high half is the next one we will see.
            pending = Some(unit);
        } else {
            let code: u32 = if 0xD800 <= unit && unit <= 0xDBFF {
                match pending {
                    Some(low) => {
                        pending = None;
                        0x1_0000 + (unit as u32 - 0xD800) * 0x400 + (low as u32 - 0xDC00)
                    },
                    // A high half with nothing to pair it with: not a name we
                    // can have written.
                    None => return (false, rest, pending),
                }
            } else {
                if pending.is_some() {
                    // A low half followed by something that cannot complete it.
                    return (false, rest, pending);
                }
                unit as u32
            };
            let c = match char_from_u32(code) {
                Some(c) => c,
                None => return (false, rest, pending),
            };
            match strip_last_char(rest, c, fold_case) {
                Some(shorter) => {
                    rest = shorter;
                },
                None => return (false, rest, pending),
            }
        }
    }
    (true, rest, pending)
}

} // verus!
