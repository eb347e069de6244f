//! The text that the code units of a long name spell.

use crate::creation::chain_bytes;
use crate::entry::LfnView;
use crate::lfn_buffer::{
    before_nul, decode_first, decode_utf16, lemma_utf8_length_concat, replaced, saved_of, text_of,
    utf8_length, utf8_width, Decoded, LfnText,
};
use crate::listing::{gathered, long_name_for, Gather};
use crate::long_name::{lemma_char_units, long_name_length, utf16, utf16_units};
use crate::name::csum_of;
use crate::round_trip::{
    gathered_pieces, law_written_name_is_listed, lemma_before_nul_of, lemma_utf16_concat,
    lemma_utf16_first, lemma_written_name_fits, pieces_of,
};
use crate::rows::gathered_from;
use vstd::prelude::*;
use vstd::utf8::{encode_scalar, encode_utf8};

verus! {

/// A character takes one code unit, its own number, or two, which share its number.
pub proof fn law_character_is_one_unit_or_two(c: char)
    ensures
        ({
            let units = utf16(seq![c]);
            &&& (c as int) < 0x1_0000 ==> units.len() == 1 && units[0] == c as int
            &&& c as int >= 0x1_0000 ==> {
                &&& units.len() == 2
                &&& 0xD800 <= units[0] < 0xDC00
                &&& 0xDC00 <= units[1] < 0xE000
                &&& c as int == 0x1_0000 + (units[0] - 0xD800) * 0x400 + (units[1] - 0xDC00)
            }
        }),
{
    lemma_single(c);
}

/// The units of a text are those of its parts, one behind the other.
pub proof fn law_units_follow_each_other(a: Seq<char>, b: Seq<char>)
    ensures
        utf16(a + b) == utf16(a) + utf16(b),
        utf16(Seq::empty()).len() == 0,
{
    lemma_utf16_concat(a, b);
}

/// The room that a text takes in a buffer is that of its encoding in UTF-8.
pub proof fn law_text_takes_its_encoding(text: Seq<char>)
    ensures
        utf8_length(text) == encode_utf8(text).len(),
    decreases text.len(),
{
    if text.len() > 0 {
        let rest = text.drop_first();
        law_text_takes_its_encoding(rest);
        lemma_width(text[0]);
        let first = seq![text[0]];
        assert(first + rest =~= text);
        lemma_utf8_length_concat(first, rest);
        assert(first.drop_last() =~= Seq::empty());
        reveal_with_fuel(utf8_length, 2);
        assert(utf8_length(first) == utf8_width(text[0]));
    }
}

/// A character takes as many bytes as its encoding.
proof fn lemma_width(c: char)
    ensures
        utf8_width(c) == encode_scalar(c as u32).len(),
{
}

/// The units of one character.
proof fn lemma_single(c: char)
    ensures
        utf16(seq![c]) == utf16_units(c),
{
    reveal_with_fuel(utf16, 2);
    assert(seq![c].drop_last() =~= Seq::empty());
    assert(utf16(seq![c]) =~= utf16_units(c));
}

/// Is this what a piece of a name holds: these units, and then a zero, if there is
/// room for one, and anything?
pub open spec fn holds_units(piece: Seq<u16>, units: Seq<u16>) -> bool {
    &&& units.len() <= piece.len()
    &&& forall|i: int| 0 <= i < units.len() ==> #[trigger] piece[i] == units[i] && units[i] != 0
    &&& units.len() < piece.len() ==> piece[units.len() as int] == 0
}

/// Does a buffer hold this text after it was put in front of what was there, or
/// nothing if there was no room for that?
pub open spec fn is_put_in_front(before: LfnText, text: Seq<char>, after: LfnText) -> bool {
    &&& after.capacity == before.capacity
    &&& if before.overflow || utf8_length(text + before.text) > before.capacity {
        after.overflow && after.text.len() == 0
    } else {
        !after.overflow && after.text == text + before.text
    }
}

/// A piece is put in front of the pieces behind it. Once there is not enough room
/// nothing is shown, rather than a part of the name.
pub proof fn law_piece_is_put_in_front(buffer: LfnText, piece: Seq<u16>, text: Seq<char>)
    requires
        buffer.unpaired is None,
        holds_units(piece, utf16(text)),
    ensures
        is_put_in_front(buffer, text, buffer.push(piece)),
        buffer.push(piece).unpaired is None,
{
    lemma_before_nul_is(piece, utf16(text));
    lemma_decode_alone(text);
    assert(before_nul(piece) + Seq::<u16>::empty() =~= utf16(text));
}

/// Half a pair that stands alone behind other characters is shown as U+FFFD.
pub proof fn law_lone_half_is_replaced(
    buffer: LfnText,
    piece: Seq<u16>,
    front: Seq<char>,
    half: u16,
    back: Seq<char>,
)
    requires
        buffer.unpaired is None,
        front.len() > 0,
        0xD800 <= half < 0xE000,
        holds_units(piece, utf16(front) + (seq![half] + utf16(back))),
    ensures
        is_put_in_front(buffer, front + (seq!['\u{FFFD}'] + back), buffer.push(piece)),
        buffer.push(piece).unpaired is None,
{
    let row = utf16(front) + (seq![half] + utf16(back));
    lemma_before_nul_is(piece, row);
    lemma_decode_lone(front, half, back);
    assert(before_nul(piece) + Seq::<u16>::empty() =~= row);
}

/// Half a pair at the very front of a piece waits for the piece in front of it.
pub proof fn law_half_in_front_waits(
    buffer: LfnText,
    piece: Seq<u16>,
    half: u16,
    back: Seq<char>,
)
    requires
        buffer.unpaired is None,
        0xD800 <= half < 0xE000,
        holds_units(piece, seq![half] + utf16(back)),
    ensures
        is_put_in_front(buffer, back, buffer.push(piece)),
        buffer.push(piece).unpaired == Some(half),
{
    let row = seq![half] + utf16(back);
    lemma_before_nul_is(piece, row);
    lemma_decode_lone(Seq::empty(), half, back);
    assert(utf16(Seq::empty()) + row =~= row);
    assert(before_nul(piece) + Seq::<u16>::empty() =~= row);
}

/// If that one does not end with the other half, the one that waited is shown as
/// U+FFFD.
pub proof fn law_half_waits_in_vain(
    buffer: LfnText,
    piece: Seq<u16>,
    text: Seq<char>,
    half: u16,
)
    requires
        buffer.unpaired == Some(half),
        0xD800 <= half < 0xE000,
        text.len() > 0,
        holds_units(piece, utf16(text)),
    ensures
        is_put_in_front(buffer, text + seq!['\u{FFFD}'], buffer.push(piece)),
        buffer.push(piece).unpaired is None,
{
    lemma_before_nul_is(piece, utf16(text));
    lemma_decode_lone(text, half, Seq::empty());
    assert(utf16(text) + (seq![half] + utf16(Seq::empty())) =~= before_nul(piece) + seq![half]);
    assert(text + (seq!['\u{FFFD}'] + Seq::empty()) =~= text + seq!['\u{FFFD}']);
}

/// If it does, the two halves are one character.
pub proof fn law_halves_are_joined(
    buffer: LfnText,
    piece: Seq<u16>,
    text: Seq<char>,
    c: char,
)
    requires
        c as int >= 0x1_0000,
        buffer.unpaired == Some(utf16(seq![c])[1]),
        holds_units(piece, utf16(text).push(utf16(seq![c])[0])),
    ensures
        is_put_in_front(buffer, text + seq![c], buffer.push(piece)),
        buffer.push(piece).unpaired is None,
{
    let joined = text + seq![c];
    law_character_is_one_unit_or_two(c);
    lemma_before_nul_is(piece, utf16(text).push(utf16(seq![c])[0]));
    lemma_utf16_concat(text, seq![c]);
    assert(before_nul(piece) + seq![utf16(seq![c])[1]] =~= utf16(joined));
    lemma_decode_alone(joined);
}

/// Does a buffer hold what a larger one holds, or nothing if that is too much for it?
pub open spec fn holds_or_overflows(small: LfnText, large: LfnText) -> bool {
    &&& small.unpaired == large.unpaired
    &&& small.overflow <==> utf8_length(large.text) > small.capacity
    &&& small.overflow ==> small.text.len() == 0
    &&& !small.overflow ==> small.text == large.text
}

/// A buffer that is smaller than another shows the same name, or nothing at all if the
/// name takes more bytes than it has room for, whichever pieces are met.
pub proof fn law_small_buffer_shows_all_or_nothing(
    pieces: Seq<LfnView>,
    small: nat,
    large: nat,
)
    requires
        small <= large,
        !gathered_from(pieces, large).1.overflow,
    ensures
        gathered_from(pieces, small).0 == gathered_from(pieces, large).0,
        holds_or_overflows(gathered_from(pieces, small).1, gathered_from(pieces, large).1),
    decreases pieces.len(),
{
    if pieces.len() > 0 {
        let front = pieces.drop_last();
        let state = gathered_from(front, large).0;
        if is_next(state, pieces.last()) {
            law_small_buffer_shows_all_or_nothing(front, small, large);
        }
        lemma_same_state(front, small, large);
        lemma_gathered_alike(
            state,
            gathered_from(front, small).1,
            gathered_from(front, large).1,
            pieces.last(),
        );
    }
}

/// Is this piece the one that is waited for?
spec fn is_next(state: Gather, piece: LfnView) -> bool {
    &&& !piece.is_start
    &&& 1 <= piece.sequence < 20
    &&& state is Remaining && state->next == piece.sequence
}

/// How much room there is makes no difference to which pieces count.
proof fn lemma_same_state(pieces: Seq<LfnView>, small: nat, large: nat)
    ensures
        gathered_from(pieces, small).0 == gathered_from(pieces, large).0,
        gathered_from(pieces, small).1.capacity == small,
        gathered_from(pieces, large).1.capacity == large,
    decreases pieces.len(),
{
    if pieces.len() > 0 {
        lemma_same_state(pieces.drop_last(), small, large);
    }
}

/// One more piece is put into both.
proof fn lemma_gathered_alike(state: Gather, small: LfnText, large: LfnText, piece: LfnView)
    requires
        small.capacity <= large.capacity,
        !gathered(state, large, piece).1.overflow,
        is_next(state, piece) ==> holds_or_overflows(small, large),
    ensures
        gathered(state, small, piece).0 == gathered(state, large, piece).0,
        holds_or_overflows(gathered(state, small, piece).1, gathered(state, large, piece).1),
{
    if is_next(state, piece) {
        lemma_push_alike(small, large, piece.units);
    } else {
        lemma_push_alike(
            LfnText::empty(small.capacity),
            LfnText::empty(large.capacity),
            piece.units,
        );
    }
}

/// The units of a piece are put in front of both.
proof fn lemma_push_alike(small: LfnText, large: LfnText, units: Seq<u16>)
    requires
        small.capacity <= large.capacity,
        holds_or_overflows(small, large),
    ensures
        !large.push(units).overflow ==> holds_or_overflows(small.push(units), large.push(units)),
{
    let row = before_nul(units) + match large.unpaired {
        Some(unit) => seq![unit],
        None => Seq::empty(),
    };
    lemma_utf8_length_concat(text_of(decode_utf16(row)), large.text);
}

/// A long name that was written is listed whole, or as nothing if it takes more bytes
/// than the buffer has room for.
pub proof fn law_written_name_is_listed_whole(name: Seq<char>, short_name: Seq<u8>, capacity: nat)
    requires
        long_name_length(name) is Ok,
    ensures
        ({
            let raws = chain_bytes(name, csum_of(short_name));
            let (met, text) = gathered_from(pieces_of(raws, raws.len()), capacity);
            long_name_for(met, text, short_name) == Some(
                if utf8_length(name) <= capacity {
                    name
                } else {
                    Seq::empty()
                },
            )
        }),
{
    let raws = chain_bytes(name, csum_of(short_name));
    let large = capacity + utf8_length(name);
    lemma_gathered_from_slots(raws, capacity, raws.len());
    lemma_gathered_from_slots(raws, large, raws.len());
    law_written_name_is_listed(Gather::Waiting, LfnText::empty(large), name, short_name);
    lemma_written_name_fits(LfnText::empty(large), name, csum_of(short_name));
    law_small_buffer_shows_all_or_nothing(pieces_of(raws, raws.len()), capacity, large);
    lemma_same_state(pieces_of(raws, raws.len()), capacity, large);
    let shown = gathered_from(pieces_of(raws, raws.len()), capacity).1.text;
    assert(shown.len() == 0 ==> shown =~= Seq::empty());
}

/// The slots of a name are its pieces.
proof fn lemma_gathered_from_slots(raws: Seq<Seq<u8>>, capacity: nat, n: nat)
    requires
        n <= raws.len(),
    ensures
        gathered_from(pieces_of(raws, n), capacity) == gathered_pieces(
            Gather::Waiting,
            LfnText::empty(capacity),
            raws,
            n,
        ),
    decreases n,
{
    if n > 0 {
        lemma_gathered_from_slots(raws, capacity, (n - 1) as nat);
        assert(pieces_of(raws, n).drop_last() =~= pieces_of(raws, (n - 1) as nat));
    }
}

/// Are these the characters of a text, as they are read?
spec fn are_characters(items: Seq<Decoded>, text: Seq<char>) -> bool {
    &&& items.len() == text.len()
    &&& forall|i: int| 0 <= i < text.len() ==> #[trigger] items[i] == Decoded::Char(text[i])
}

/// Of a piece that holds these units no others are read.
proof fn lemma_before_nul_is(piece: Seq<u16>, units: Seq<u16>)
    requires
        holds_units(piece, units),
    ensures
        before_nul(piece) == units,
{
    assert forall|i: int| 0 <= i < units.len() implies #[trigger] piece[i] != 0 by {
        assert(piece[i] == units[i]);
    }
    lemma_before_nul_of(piece, units.len());
    assert(piece.take(units.len() as int) =~= units);
}

/// What is read from the units of a text and from what stands behind them.
proof fn lemma_decode_behind(text: Seq<char>, row: Seq<u16>)
    ensures
        ({
            let items = decode_utf16(utf16(text) + row);
            let behind = decode_utf16(row);
            &&& items.len() == text.len() + behind.len()
            &&& are_characters(items.take(text.len() as int), text)
            &&& items.skip(text.len() as int) == behind
        }),
    decreases text.len(),
{
    let units = utf16(text) + row;
    let items = decode_utf16(units);
    if text.len() == 0 {
        assert(units =~= row);
        assert(items.skip(0) =~= items);
    } else {
        let rest = text.skip(1);
        lemma_utf16_first(text);
        lemma_char_units(text[0]);
        let chars = utf16_units(text[0]);
        assert(units[0] == chars[0]);
        if chars.len() == 2 {
            assert(units[1] == chars[1]);
        }
        let (first, n) = decode_first(units);
        assert(first == Decoded::Char(text[0]));
        assert(n == chars.len());
        assert(units.skip(n) =~= utf16(rest) + row);
        lemma_decode_behind(rest, row);
        let others = decode_utf16(utf16(rest) + row);
        assert(items == seq![first] + others);
        assert forall|i: int| 0 <= i < text.len() implies #[trigger] items.take(
            text.len() as int,
        )[i] == Decoded::Char(text[i]) by {
            if i > 0 {
                assert(others.take(rest.len() as int)[i - 1] == Decoded::Char(rest[i - 1]));
            }
        }
        assert(items.skip(text.len() as int) =~= others.skip(rest.len() as int));
    }
}

/// What is read from the units of a text alone.
proof fn lemma_decode_alone(text: Seq<char>)
    ensures
        are_characters(decode_utf16(utf16(text)), text),
        text_of(decode_utf16(utf16(text))) == text,
        saved_of(decode_utf16(utf16(text))) is None,
{
    let items = decode_utf16(utf16(text));
    lemma_decode_behind(text, Seq::empty());
    assert(utf16(text) + Seq::empty() =~= utf16(text));
    assert(items.take(text.len() as int) =~= items);
    assert forall|i: int| 0 <= i < text.len() implies #[trigger] replaced(items)[i] == text[i] by {
        assert(items[i] == Decoded::Char(text[i]));
    }
    assert(replaced(items) =~= text);
    if text.len() > 0 {
        assert(items[0] == Decoded::Char(text[0]));
    }
}

/// What is read where half a pair stands alone.
proof fn lemma_decode_lone(front: Seq<char>, half: u16, back: Seq<char>)
    requires
        0xD800 <= half < 0xE000,
    ensures
        ({
            let items = decode_utf16(utf16(front) + (seq![half] + utf16(back)));
            &&& front.len() > 0 ==> saved_of(items) is None && text_of(items) == front + (
            seq!['\u{FFFD}'] + back)
            &&& front.len() == 0 ==> saved_of(items) == Some(half) && text_of(items) == back
        }),
{
    let row = seq![half] + utf16(back);
    let items = decode_utf16(utf16(front) + row);
    let behind = decode_utf16(utf16(back));
    let n = front.len() as int;
    lemma_decode_behind(front, row);
    if back.len() > 0 {
        lemma_utf16_first(back);
        lemma_char_units(back[0]);
        assert(utf16(back)[0] == utf16_units(back[0])[0]);
        assert(row[1] == utf16(back)[0]);
    } else {
        assert(row.len() == 1);
    }
    assert(row[0] == half);
    assert(decode_first(row) == (Decoded::Unpaired(half), 1int));
    assert(row.skip(1) =~= utf16(back));
    lemma_decode_alone(back);
    assert(decode_utf16(row) == seq![Decoded::Unpaired(half)] + behind);
    assert(items.skip(n)[0] == Decoded::Unpaired(half));
    assert(items[n] == Decoded::Unpaired(half));
    assert forall|i: int| 0 <= i < back.len() implies #[trigger] items[n + 1 + i]
        == Decoded::Char(back[i]) by {
        assert(items.skip(n)[1 + i] == behind[i]);
    }
    if n > 0 {
        let shown = front + (seq!['\u{FFFD}'] + back);
        assert(items.take(n)[0] == Decoded::Char(front[0]));
        assert forall|i: int| 0 <= i < shown.len() implies #[trigger] replaced(items)[i]
            == shown[i] by {
            if i < n {
                assert(items.take(n)[i] == Decoded::Char(front[i]));
            } else if i > n {
                assert(items[n + 1 + (i - n - 1)] == Decoded::Char(back[i - n - 1]));
            }
        }
        assert(replaced(items) =~= shown);
    } else {
        assert forall|i: int| 0 <= i < back.len() implies #[trigger] replaced(items.skip(1))[i]
            == back[i] by {
            assert(items[n + 1 + i] == Decoded::Char(back[i]));
        }
        assert(replaced(items.skip(1)) =~= back);
    }
}

} // verus!
