//! Putting a long name together from its pieces.

use crate::long_name::{char_from_u32, surrogate_pair};
use vstd::prelude::*;

verus! {

/// What is read from a row of UTF-16 code units.
pub enum Decoded {
    /// A character.
    Char(char),
    /// A surrogate whose other half is not next to it.
    Unpaired(u16),
}

/// Is `unit` the first half of a pair?
pub open spec fn is_high_surrogate(unit: u16) -> bool {
    0xD800 <= unit <= 0xDBFF
}

/// Is `unit` the second half of a pair?
pub open spec fn is_low_surrogate(unit: u16) -> bool {
    0xDC00 <= unit <= 0xDFFF
}

/// The first thing that is read from `units`, and how many of them it takes.
pub open spec fn decode_first(units: Seq<u16>) -> (Decoded, int) {
    let unit = units[0];
    if is_high_surrogate(unit) && units.len() > 1 && is_low_surrogate(units[1]) {
        (Decoded::Char(surrogate_pair(unit, units[1])), 2)
    } else if is_high_surrogate(unit) || is_low_surrogate(unit) {
        (Decoded::Unpaired(unit), 1)
    } else {
        (Decoded::Char(unit as char), 1)
    }
}

/// Everything that is read from `units`.
pub open spec fn decode_utf16(units: Seq<u16>) -> Seq<Decoded>
    decreases units.len(),
{
    if units.len() == 0 {
        Seq::empty()
    } else {
        let (first, n) = decode_first(units);
        seq![first] + decode_utf16(units.skip(n))
    }
}

/// The characters that were read, with U+FFFD for every unpaired surrogate.
pub open spec fn replaced(items: Seq<Decoded>) -> Seq<char> {
    Seq::new(
        items.len(),
        |i: int|
            match items[i] {
                Decoded::Char(c) => c,
                Decoded::Unpaired(_) => '\u{FFFD}',
            },
    )
}

/// The text that was read. An unpaired surrogate at its very start may have its
/// other half in the piece in front of it, so it is left out for now.
pub open spec fn text_of(items: Seq<Decoded>) -> Seq<char> {
    if saved_of(items) is Some {
        replaced(items.skip(1))
    } else {
        replaced(items)
    }
}

/// The unpaired surrogate at the start of what was read.
pub open spec fn saved_of(items: Seq<Decoded>) -> Option<u16> {
    if items.len() > 0 {
        match items[0] {
            Decoded::Unpaired(unit) => Some(unit),
            Decoded::Char(_) => None,
        }
    } else {
        None
    }
}

/// How many bytes a character takes in UTF-8.
pub open spec fn utf8_width(c: char) -> nat {
    if c as u32 <= 0x7F {
        1
    } else if c as u32 <= 0x7FF {
        2
    } else if c as u32 <= 0xFFFF {
        3
    } else {
        4
    }
}

/// How many bytes a string takes in UTF-8.
pub open spec fn utf8_length(s: Seq<char>) -> nat
    decreases s.len(),
{
    if s.len() == 0 {
        0
    } else {
        utf8_length(s.drop_last()) + utf8_width(s.last())
    }
}

/// The code units in front of the first zero.
pub open spec fn before_nul(units: Seq<u16>) -> Seq<u16>
    decreases units.len(),
{
    if units.len() == 0 || units[0] == 0 {
        Seq::empty()
    } else {
        seq![units[0]] + before_nul(units.skip(1))
    }
}

/// What a buffer holds.
pub struct LfnText {
    /// How many bytes of UTF-8 there is room for.
    pub capacity: nat,
    /// The end of the name, as far as its pieces have been put in.
    pub text: Seq<char>,
    /// Was there not enough room?
    pub overflow: bool,
    /// A surrogate in front of the text that waits for its other half.
    pub unpaired: Option<u16>,
}

impl LfnText {
    /// An empty buffer.
    pub open spec fn empty(capacity: nat) -> LfnText {
        LfnText { capacity, text: Seq::empty(), overflow: false, unpaired: None }
    }

    /// The buffer once a piece of the name was put in front of it.
    pub open spec fn push(self, units: Seq<u16>) -> LfnText {
        let row = before_nul(units) + match self.unpaired {
            Some(unit) => seq![unit],
            None => Seq::empty(),
        };
        let items = decode_utf16(row);
        let text = text_of(items) + self.text;
        if self.overflow || utf8_length(text) > self.capacity {
            LfnText {
                text: Seq::empty(),
                overflow: true,
                unpaired: saved_of(items),
                capacity: self.capacity,
            }
        } else {
            LfnText {
                text,
                overflow: false,
                unpaired: saved_of(items),
                capacity: self.capacity,
            }
        }
    }
}

/// Characters at the end add up.
pub proof fn lemma_utf8_length_concat(a: Seq<char>, b: Seq<char>)
    ensures
        utf8_length(a + b) == utf8_length(a) + utf8_length(b),
    decreases b.len(),
{
    if b.len() == 0 {
        assert(a + b =~= a);
    } else {
        assert((a + b).drop_last() =~= a + b.drop_last());
        lemma_utf8_length_concat(a, b.drop_last());
    }
}

/// `String::push` puts a character at the end.
pub assume_specification[ String::push ](s: &mut String, c: char)
    ensures
        final(s)@ == old(s)@.push(c),
;

/// A buffer in which a long name is put together from its pieces, which come
/// last piece first.
pub struct LfnBuffer {
    capacity: usize,
    used: usize,
    text: String,
    overflow: bool,
    unpaired_surrogate: Option<u16>,
}

impl View for LfnBuffer {
    type V = LfnText;

    closed spec fn view(&self) -> LfnText {
        LfnText {
            capacity: self.capacity as nat,
            text: self.text@,
            overflow: self.overflow,
            unpaired: self.unpaired_surrogate,
        }
    }
}

impl LfnBuffer {
    /// Is the room that is taken that of the text?
    pub closed spec fn wf(&self) -> bool {
        self.used == utf8_length(self.text@) && self.used <= self.capacity
    }

    /// Create a buffer with room for `capacity` bytes of UTF-8.
    pub fn new(capacity: usize) -> (buffer: LfnBuffer)
        ensures
            buffer.wf(),
            buffer@ == LfnText::empty(capacity as nat),
    {
        LfnBuffer {
            capacity,
            used: 0,
            text: String::new(),
            overflow: false,
            unpaired_surrogate: None,
        }
    }

    /// Empty out this buffer.
    pub fn clear(&mut self)
        requires
            old(self).wf(),
        ensures
            final(self).wf(),
            final(self)@ == LfnText::empty(old(self)@.capacity),
    {
        self.used = 0;
        self.text = String::new();
        self.overflow = false;
        self.unpaired_surrogate = None;
    }

    /// View this buffer as a string: the name so far, or nothing at all if
    /// there was not enough room for it.
    pub fn as_str(&self) -> (text: &str)
        ensures
            text@ == self@.text,
    {
        self.text.as_str()
    }

    /// Put a piece of a long name in front of what is there. The code units
    /// from the first zero on are padding.
    pub fn push(&mut self, buffer: &[u16; 13])
        requires
            old(self).wf(),
        ensures
            final(self).wf(),
            final(self)@ == old(self)@.push(buffer@),
    {
        let row = Self::row(buffer, self.unpaired_surrogate);
        let (mut text, saved) = Self::decode(&row);
        self.unpaired_surrogate = saved;
        let ghost front = text@;
        text.append(self.text.as_str());
        proof {
            lemma_utf8_length_concat(front, self.text@);
        }
        if !self.overflow {
            match Self::bytes_in(text.as_str(), self.capacity) {
                Some(bytes) => {
                    self.used = bytes;
                    self.text = text;
                    return ;
                },
                None => {},
            }
        }
        // Too long, so show nothing rather than a part of it
        self.overflow = true;
        self.used = 0;
        self.text = String::new();
    }

    /// The code units in front of the first zero, and then the one that was
    /// left over from the piece behind.
    fn row(buffer: &[u16; 13], unpaired: Option<u16>) -> (row: Vec<u16>)
        ensures
            row@ == before_nul(buffer@) + match unpaired {
                Some(unit) => seq![unit],
                None => Seq::empty(),
            },
    {
        let mut row: Vec<u16> = Vec::new();
        let mut i: usize = 0;
        assert(buffer@.skip(0) =~= buffer@);
        while i < 13 && buffer[i] != 0
            invariant
                i <= 13,
                before_nul(buffer@) == row@ + before_nul(buffer@.skip(i as int)),
            decreases 13 - i,
        {
            assert(buffer@.skip(i as int).skip(1) =~= buffer@.skip(i + 1));
            row.push(buffer[i]);
            i += 1;
            assert(before_nul(buffer@) =~= row@ + before_nul(buffer@.skip(i as int)));
        }
        assert(before_nul(buffer@) =~= row@);
        if let Some(unit) = unpaired {
            row.push(unit);
        }
        assert(row@ =~= before_nul(buffer@) + match unpaired {
            Some(unit) => seq![unit],
            None => Seq::empty(),
        });
        row
    }

    /// The text that a row of code units holds, and an unpaired surrogate at
    /// its start.
    fn decode(row: &Vec<u16>) -> (result: (String, Option<u16>))
        ensures
            result.0@ == text_of(decode_utf16(row@)),
            result.1 == saved_of(decode_utf16(row@)),
    {
        let mut text = String::new();
        let mut saved: Option<u16> = None;
        let mut i: usize = 0;
        let ghost mut items: Seq<Decoded> = Seq::empty();
        assert(row@.skip(0) =~= row@);
        assert(decode_utf16(row@) =~= items + decode_utf16(row@));
        while i < row.len()
            invariant
                i <= row@.len(),
                decode_utf16(row@) == items + decode_utf16(row@.skip(i as int)),
                text@ == text_of(items),
                saved == saved_of(items),
                i > 0 <==> items.len() > 0,
            decreases row@.len() - i,
        {
            let ghost left = row@.skip(i as int);
            let ghost before = items;
            proof {
                let (first, n) = decode_first(left);
                items = items.push(first);
                assert(left.skip(n) =~= row@.skip(i + n));
                assert(decode_utf16(row@) =~= items + decode_utf16(left.skip(n)));
                if before.len() > 0 {
                    assert(items.skip(1) =~= before.skip(1).push(first));
                    assert(saved_of(items) == saved_of(before));
                    assert(text_of(items) =~= text_of(before).push(
                        match first {
                            Decoded::Char(c) => c,
                            Decoded::Unpaired(_) => '\u{FFFD}',
                        },
                    ));
                } else {
                    assert(items =~= seq![first]);
                    assert(text_of(before) =~= Seq::empty());
                    if let Decoded::Char(c) = first {
                        assert(text_of(items) =~= seq![c]);
                        assert(text_of(items) =~= text_of(before).push(c));
                    } else {
                        assert(text_of(items) =~= Seq::empty());
                    }
                }
            }
            let is_first = i == 0;
            let unit: u16 = row[i];
            let mut code: u32 = unit as u32;
            let mut paired = true;
            i += 1;
            if 0xD800 <= unit && unit <= 0xDFFF {
                if unit <= 0xDBFF && i < row.len() && 0xDC00 <= row[i] && row[i] <= 0xDFFF {
                    code = 0x1_0000 + (unit as u32 - 0xD800) * 0x400 + (row[i] as u32 - 0xDC00);
                    i += 1;
                } else {
                    paired = false;
                }
            }
            if paired {
                match char_from_u32(code) {
                    Some(c) => {
                        text.push(c);
                    },
                    None => {
                        assert(false);
                    },
                }
            } else if is_first {
                // The other half is probably in the next piece to come
                saved = Some(unit);
            } else {
                text.push('\u{FFFD}');
            }
        }
        assert(row@.skip(i as int) =~= Seq::empty());
        assert(items + decode_utf16(row@.skip(i as int)) =~= items);
        (text, saved)
    }

    /// How many bytes a string takes in UTF-8, if not more than `limit`.
    fn bytes_in(text: &str, limit: usize) -> (bytes: Option<usize>)
        ensures
            match bytes {
                Some(n) => n == utf8_length(text@) && n <= limit,
                None => utf8_length(text@) > limit,
            },
    {
        let mut bytes: usize = 0;
        assert(text@.take(0) =~= Seq::<char>::empty());
        for c in it: text.chars()
            invariant
                it.seq() == text@,
                bytes == utf8_length(text@.take(it.index())),
                bytes <= limit,
        {
            proof {
                assert(text@.take(it.index() + 1).drop_last() =~= text@.take(it.index()));
                lemma_utf8_length_concat(
                    text@.take(it.index() + 1),
                    text@.skip(it.index() + 1),
                );
                assert(text@.take(it.index() + 1) + text@.skip(it.index() + 1) =~= text@);
            }
            let code: u32 = c as u32;
            let width: usize = if code <= 0x7F {
                1
            } else if code <= 0x7FF {
                2
            } else if code <= 0xFFFF {
                3
            } else {
                4
            };
            if limit - bytes < width {
                return None;
            }
            bytes += width;
        }
        assert(text@.take(text@.len() as int) =~= text@);
        Some(bytes)
    }
}

} // verus!
