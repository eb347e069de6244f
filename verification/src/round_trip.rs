//! A long name that was written is found, listed and deleted as what it is.

use crate::creation::{chain_bytes, piece, piece_count};
use crate::deletion::Pending;
use crate::directory::DirectorySlot;
use crate::entry::{slot_is_lfn, slot_is_valid, slot_lfn, EntryView, LfnView};
use crate::lfn_buffer::{
    before_nul, decode_first, decode_utf16, is_low_surrogate, lemma_utf8_length_concat, replaced,
    saved_of, text_of, utf8_length, Decoded, LfnText,
};
use crate::listing::{gathered, long_name_for, Gather};
use crate::long_lookup::{chain_reads, chain_units, is_name_chain, LongSought};
use crate::long_name::{
    law_text_spells_itself, lemma_char_units, lemma_lfn_round_trip, lemma_utf16_len,
    long_name_length, padded, reads_as, reserved_in_long_names, trim_end, trimmed, utf16,
    utf16_units,
};
use crate::name::csum_of;
use vstd::prelude::*;

verus! {

/// The code units of a good long name are no padding.
proof fn lemma_units_are_no_padding(s: Seq<char>)
    requires
        forall|i: int| 0 <= i < s.len() ==> !reserved_in_long_names(#[trigger] s[i]),
    ensures
        forall|i: int| 0 <= i < utf16(s).len() ==> #[trigger] utf16(s)[i] != 0 && utf16(s)[i]
            != 0xFFFF,
    decreases s.len(),
{
    if s.len() > 0 {
        let front = utf16(s.drop_last());
        let units = utf16_units(s.last());
        lemma_units_are_no_padding(s.drop_last());
        assert(!reserved_in_long_names(s[s.len() - 1]));
        lemma_char_units(s.last());
        assert forall|i: int| 0 <= i < utf16(s).len() implies #[trigger] utf16(s)[i] != 0
            && utf16(s)[i] != 0xFFFF by {
            if i < front.len() {
                assert(utf16(s)[i] == front[i]);
            } else {
                assert(utf16(s)[i] == units[i - front.len()]);
            }
        }
    }
}

/// Trimming takes the padding off a piece, and nothing else.
proof fn lemma_trimmed(p: Seq<u16>)
    requires
        0 < p.len() <= 13,
        forall|i: int| 0 <= i < p.len() ==> #[trigger] p[i] != 0 && p[i] != 0xFFFF,
    ensures
        trimmed(padded(p)) == p,
{
    let n: int = if p.len() == 13 {
        13
    } else {
        p.len() as int + 1
    };
    lemma_trim_end(padded(p), 0xFFFF, n);
    assert(padded(p).take(n).last() != 0xFFFF);
    lemma_trim_end(padded(p).take(n), 0, p.len() as int);
    assert(padded(p).take(n).take(p.len() as int) =~= p);
}

/// Trimming takes off what is all the same.
proof fn lemma_trim_end(s: Seq<u16>, x: u16, n: int)
    requires
        0 < n <= s.len(),
        forall|i: int| n <= i < s.len() ==> #[trigger] s[i] == x,
        s[n - 1] != x,
    ensures
        trim_end(s, x) == s.take(n),
    decreases s.len(),
{
    if n == s.len() {
        assert(s.take(n) =~= s);
    } else {
        assert(s.last() == x);
        lemma_trim_end(s.drop_last(), x, n);
        assert(s.drop_last().take(n) =~= s.take(n));
    }
}

/// What the finder knows once it was shown the first `n` slots of a long name.
pub open spec fn shown_pieces(
    state: LongSought,
    raws: Seq<Seq<u8>>,
    entries: Seq<EntryView>,
    n: nat,
) -> Option<LongSought>
    decreases n,
{
    if n == 0 {
        Some(state)
    } else {
        match shown_pieces(state, raws, entries, (n - 1) as nat) {
            Some(known) => match known.after(entries[n - 1], raws[n - 1]) {
                (next, false) => Some(next),
                _ => None,
            },
            None => None,
        }
    }
}

/// The slot `i` of a long name is read back as the piece that was written.
pub proof fn lemma_chain_slot(name: Seq<char>, checksum: u8, i: int)
    requires
        long_name_length(name) is Ok,
        0 <= i < chain_bytes(name, checksum).len(),
    ensures
        ({
            let raws = chain_bytes(name, checksum);
            let count = raws.len();
            let p = piece(utf16(name), count - i);
            &&& count == piece_count(utf16(name).len())
            &&& 1 <= count <= 20
            &&& raws[i].len() == 32
            &&& slot_is_valid(raws[i])
            &&& slot_is_lfn(raws[i])
            &&& slot_lfn(raws[i]).is_start == (i == 0)
            &&& slot_lfn(raws[i]).sequence == count - i
            &&& slot_lfn(raws[i]).csum == checksum
            &&& slot_lfn(raws[i]).units == padded(p)
            &&& 0 < p.len() <= 13
            &&& i > 0 ==> p.len() == 13 && padded(p) == p
            &&& forall|k: int| 0 <= k < p.len() ==> #[trigger] p[k] != 0 && p[k] != 0xFFFF
        }),
{
    let units = utf16(name);
    let count = piece_count(units.len());
    let p = piece(units, count - i);
    lemma_lfn_round_trip((count - i) as u8, i == 0, checksum, p);
    lemma_units_are_no_padding(name);
    if i > 0 {
        assert(padded(p) =~= p);
    }
}

/// The first `n` slots of a long name, as the pieces that they hold.
pub open spec fn pieces_of(raws: Seq<Seq<u8>>, n: nat) -> Seq<LfnView> {
    Seq::new(n, |i: int| slot_lfn(raws[i]))
}

/// The finder takes note of the slots of a long name, one after the other.
pub proof fn lemma_pieces_shown(
    state: LongSought,
    name: Seq<char>,
    checksum: u8,
    entries: Seq<EntryView>,
    n: nat,
)
    requires
        long_name_length(name) is Ok,
        n <= chain_bytes(name, checksum).len(),
    ensures
        ({
            let raws = chain_bytes(name, checksum);
            shown_pieces(state, raws, entries, n) == Some(
                LongSought { pieces: state.pieces + pieces_of(raws, n), ..state },
            )
        }),
    decreases n,
{
    let raws = chain_bytes(name, checksum);
    if n > 0 {
        lemma_chain_slot(name, checksum, n - 1);
        lemma_pieces_shown(state, name, checksum, entries, (n - 1) as nat);
        assert((state.pieces + pieces_of(raws, (n - 1) as nat)).push(slot_lfn(raws[n - 1]))
            =~= state.pieces + pieces_of(raws, n));
    } else {
        assert(state.pieces + pieces_of(raws, 0) =~= state.pieces);
    }
}

/// The first `n` slots of a long name hold its code units from some place on.
proof fn lemma_units_of_slots(name: Seq<char>, checksum: u8, n: nat)
    requires
        long_name_length(name) is Ok,
        1 <= n <= chain_bytes(name, checksum).len(),
    ensures
        ({
            let raws = chain_bytes(name, checksum);
            chain_units(pieces_of(raws, n)) == utf16(name).skip((raws.len() - n) * 13)
        }),
    decreases n,
{
    let units = utf16(name);
    let raws = chain_bytes(name, checksum);
    let count = raws.len();
    let chain = pieces_of(raws, n);
    let p = piece(units, count - n + 1);
    lemma_chain_slot(name, checksum, n - 1);
    assert(chain.last() == slot_lfn(raws[n - 1]));
    if n == 1 {
        lemma_trimmed(p);
        assert(p =~= units.skip((count - 1) * 13));
    } else {
        lemma_units_of_slots(name, checksum, (n - 1) as nat);
        assert(chain.drop_last() =~= pieces_of(raws, (n - 1) as nat));
        assert(p + units.skip((count - n + 1) * 13) =~= units.skip((count - n) * 13));
    }
}

/// The slots that are written for a long name are all the pieces of it, and hold
/// its code units.
pub proof fn law_written_slots_are_a_chain(name: Seq<char>, checksum: u8)
    requires
        long_name_length(name) is Ok,
    ensures
        ({
            let raws = chain_bytes(name, checksum);
            let chain = pieces_of(raws, raws.len());
            is_name_chain(chain, checksum) && chain_units(chain) == utf16(name)
        }),
{
    let raws = chain_bytes(name, checksum);
    let chain = pieces_of(raws, raws.len());
    assert(raws.len() >= 1) by {
        lemma_utf16_len(name);
    }
    assert forall|i: int| 0 <= i < chain.len() implies {
        &&& (#[trigger] chain[i]).is_start == (i == 0)
        &&& chain[i].sequence == chain.len() - i
        &&& chain[i].csum == checksum
    } by {
        lemma_chain_slot(name, checksum, i);
    }
    lemma_units_of_slots(name, checksum, raws.len());
    assert(utf16(name).skip(0) =~= utf16(name));
}

/// A long name that was written is found, whatever came before: someone who looks
/// for it, and is shown the slots that were written for it and then the entry
/// that they belong to, finds that entry. So does someone who looks for another
/// name that differs by no more than case, if they do not care about case.
pub proof fn law_written_name_is_found(
    state: LongSought,
    name: Seq<char>,
    entries: Seq<EntryView>,
    entry: EntryView,
    raw: Seq<u8>,
)
    requires
        long_name_length(name) is Ok,
        reads_as(state.name, name, state.fold_case),
        !slot_is_lfn(raw),
    ensures
        ({
            let raws = chain_bytes(name, csum_of(entry.name));
            &&& shown_pieces(state, raws, entries, raws.len()) matches Some(known) && known.after(
                entry,
                raw,
            ) == (LongSought { found: Some(entry), ..known }, true)
        }),
{
    let checksum = csum_of(entry.name);
    let raws = chain_bytes(name, checksum);
    let chain = pieces_of(raws, raws.len());
    lemma_pieces_shown(state, name, checksum, entries, raws.len());
    law_written_slots_are_a_chain(name, checksum);
    law_text_spells_itself(name, state.name, state.fold_case);
    let pieces = state.pieces + chain;
    assert(pieces.skip(state.pieces.len() as int) =~= chain);
    assert(chain_reads(
        pieces.skip(state.pieces.len() as int),
        checksum,
        state.name,
        state.fold_case,
    ));
}

/// The slots of a long name that have been met once the first `n` slots of it
/// were observed.
pub open spec fn observed_pieces(
    pending: Pending,
    raws: Seq<Seq<u8>>,
    slots: Seq<DirectorySlot>,
    n: nat,
) -> Pending
    decreases n,
{
    if n == 0 {
        pending
    } else {
        observed_pieces(pending, raws, slots, (n - 1) as nat).observed(
            slot_lfn(raws[n - 1]),
            slots[n - 1],
        )
    }
}

/// The slots of a long name are met one after the other.
proof fn lemma_pieces_observed(
    pending: Pending,
    name: Seq<char>,
    checksum: u8,
    slots: Seq<DirectorySlot>,
    n: nat,
)
    requires
        long_name_length(name) is Ok,
        n <= chain_bytes(name, checksum).len(),
        slots.len() >= n,
    ensures
        ({
            let raws = chain_bytes(name, checksum);
            n > 0 ==> observed_pieces(pending, raws, slots, n) == (Pending {
                slots: slots.take(n as int),
                checksum,
                next: (raws.len() - n) as u8,
                active: true,
            })
        }),
    decreases n,
{
    if n > 0 {
        lemma_chain_slot(name, checksum, n - 1);
        lemma_pieces_observed(pending, name, checksum, slots, (n - 1) as nat);
        if n == 1 {
            assert(slots.take(1) =~= seq![slots[0]]);
        } else {
            assert(slots.take(n as int) =~= slots.take(n - 1).push(slots[n - 1]));
        }
    }
}

/// An entry with a long name takes the slots that were written for it: looking
/// for its slots yields all of them, whatever came before them.
pub proof fn law_written_slots_are_found(
    pending: Pending,
    name: Seq<char>,
    short_name: Seq<u8>,
    slots: Seq<DirectorySlot>,
)
    requires
        long_name_length(name) is Ok,
        slots.len() == chain_bytes(name, csum_of(short_name)).len() + 1,
    ensures
        ({
            let raws = chain_bytes(name, csum_of(short_name));
            observed_pieces(pending, raws, slots, raws.len()).taken_by(short_name, slots.last())
                == slots
        }),
{
    let raws = chain_bytes(name, csum_of(short_name));
    lemma_chain_slot(name, csum_of(short_name), 0);
    lemma_pieces_observed(pending, name, csum_of(short_name), slots, raws.len());
    assert(slots.take(raws.len() as int).push(slots.last()) =~= slots);
}

/// The code units of two strings in a row.
pub proof fn lemma_utf16_concat(a: Seq<char>, b: Seq<char>)
    ensures
        utf16(a + b) == utf16(a) + utf16(b),
    decreases b.len(),
{
    if b.len() == 0 {
        assert(a + b =~= a);
        assert(utf16(a) + utf16(b) =~= utf16(a));
    } else {
        assert((a + b).drop_last() =~= a + b.drop_last());
        lemma_utf16_concat(a, b.drop_last());
        assert(utf16(a) + (utf16(b.drop_last()) + utf16_units(b.last())) =~= utf16(a) + utf16(
            b.drop_last(),
        ) + utf16_units(b.last()));
    }
}

/// The code units of a string are those of its first character and the rest.
pub proof fn lemma_utf16_first(s: Seq<char>)
    requires
        s.len() > 0,
    ensures
        utf16(s) == utf16_units(s[0]) + utf16(s.skip(1)),
{
    let first = seq![s[0]];
    assert(first + s.skip(1) =~= s);
    lemma_utf16_concat(first, s.skip(1));
    assert(first.drop_last() =~= Seq::empty());
    reveal_with_fuel(utf16, 2);
    assert(utf16(first) =~= utf16_units(s[0]));
}

/// Decoding the code units of a string gives its characters.
proof fn lemma_decode_whole(s: Seq<char>)
    ensures
        replaced(decode_utf16(utf16(s))) == s,
        saved_of(decode_utf16(utf16(s))) is None,
    decreases s.len(),
{
    let units = utf16(s);
    let items = decode_utf16(units);
    if s.len() > 0 {
        lemma_utf16_first(s);
        lemma_char_units(s[0]);
        let chars = utf16_units(s[0]);
        assert(units[0] == chars[0]);
        if chars.len() == 2 {
            assert(units[1] == chars[1]);
        }
        let (first, n) = decode_first(units);
        assert(first == Decoded::Char(s[0]));
        assert(n == chars.len());
        assert(units.skip(n) =~= utf16(s.skip(1)));
        let rest = decode_utf16(units.skip(n));
        lemma_decode_whole(s.skip(1));
        assert(items == seq![first] + rest);
        assert(items[0] == first);
        assert forall|i: int| 0 <= i < rest.len() implies #[trigger] replaced(rest)[i]
            == replaced(items)[i + 1] by {
            assert(items[i + 1] == rest[i]);
        }
        assert(replaced(items)[0] == s[0]);
        assert forall|i: int| 0 <= i < s.len() implies replaced(items)[i] == s[i] by {
            if i > 0 {
                assert(replaced(rest)[i - 1] == s.skip(1)[i - 1]);
            }
        }
        assert(replaced(items) =~= s);
    } else {
        assert(replaced(items) =~= s);
    }
}

/// What a row of code units holds that begins with the characters `s`, or with
/// the second half of a character and then `s`.
proof fn lemma_decode_row(row: Seq<u16>, half: Option<u16>, s: Seq<char>)
    requires
        half matches Some(low) ==> is_low_surrogate(low),
        row == (match half {
            Some(low) => seq![low],
            None => Seq::empty(),
        }) + utf16(s),
    ensures
        text_of(decode_utf16(row)) == s,
        saved_of(decode_utf16(row)) == half,
{
    lemma_decode_whole(s);
    match half {
        Some(low) => {
            assert(row.skip(1) =~= utf16(s));
            let (first, n) = decode_first(row);
            assert(first == Decoded::Unpaired(low) && n == 1);
            let all = decode_utf16(row);
            assert(all == seq![first] + decode_utf16(utf16(s)));
            assert(all[0] == first);
            assert(all.skip(1) =~= decode_utf16(utf16(s)));
        },
        None => {
            assert(row =~= utf16(s));
        },
    }
}

/// Where the code unit `j` of a name stands: in front of the character `k`, or
/// in the middle of it.
spec fn boundary(name: Seq<char>, j: int, k: int) -> bool {
    0 <= k <= name.len() && {
        ||| utf16(name.take(k)).len() == j
        ||| k < name.len() && name[k] as u32 >= 0x1_0000 && utf16(name.take(k)).len() + 1 == j
    }
}

/// Every code unit stands somewhere.
proof fn lemma_boundary(name: Seq<char>, j: int) -> (k: int)
    requires
        0 <= j <= utf16(name).len(),
    ensures
        boundary(name, j, k),
    decreases name.len(),
{
    if name.len() == 0 || j == utf16(name).len() {
        assert(name.take(name.len() as int) =~= name);
        name.len() as int
    } else {
        let front = name.drop_last();
        if j <= utf16(front).len() {
            let k = lemma_boundary(front, j);
            assert(front.take(k) =~= name.take(k));
            k
        } else {
            lemma_char_units(name.last());
            assert(name.take(name.len() - 1) =~= front);
            name.len() - 1
        }
    }
}

/// What a buffer holds once the code units of a name from `j` on were put in,
/// where they stand at the character `k`.
spec fn filled_to(name: Seq<char>, capacity: nat, j: int, k: int) -> LfnText {
    if utf16(name.take(k)).len() == j {
        LfnText { capacity, text: name.skip(k), overflow: false, unpaired: None }
    } else {
        LfnText {
            capacity,
            text: name.skip(k + 1),
            overflow: false,
            unpaired: Some(utf16_units(name[k])[1]),
        }
    }
}

/// The code units of a part of a name.
proof fn lemma_utf16_part(name: Seq<char>, k: int, m: int)
    requires
        0 <= k <= m <= name.len(),
    ensures
        utf16(name).subrange(
            utf16(name.take(k)).len() as int,
            utf16(name.take(m)).len() as int,
        ) == utf16(name.subrange(k, m)),
        utf16(name.take(k)).len() <= utf16(name.take(m)).len() <= utf16(name).len(),
{
    lemma_utf16_concat(name.take(k), name.subrange(k, m));
    assert(name.take(k) + name.subrange(k, m) =~= name.take(m));
    lemma_utf16_concat(name.take(m), name.skip(m));
    assert(name.take(m) + name.skip(m) =~= name);
    assert(utf16(name).subrange(
        utf16(name.take(k)).len() as int,
        utf16(name.take(m)).len() as int,
    ) =~= utf16(name.subrange(k, m)));
}

/// Putting one more piece of a name in.
#[verifier::rlimit(40)]
proof fn lemma_fill_step(
    name: Seq<char>,
    capacity: nat,
    i: int,
    ki: int,
    j: int,
    kj: int,
    units: Seq<u16>,
)
    requires
        0 <= i < j <= utf16(name).len(),
        boundary(name, i, ki),
        boundary(name, j, kj),
        utf8_length(name) <= capacity,
        before_nul(units) == utf16(name).subrange(i, j),
    ensures
        filled_to(name, capacity, j, kj).push(units) == filled_to(name, capacity, i, ki),
{
    let all = utf16(name);
    let before = filled_to(name, capacity, j, kj);
    // the characters that begin behind `i` and end behind `j`
    let from: int = if utf16(name.take(ki)).len() == i {
        ki
    } else {
        ki + 1
    };
    let to: int = if utf16(name.take(kj)).len() == j {
        kj
    } else {
        kj + 1
    };
    let half: Option<u16> = if utf16(name.take(ki)).len() == i {
        None
    } else {
        Some(utf16_units(name[ki])[1])
    };
    let row = before_nul(units) + match before.unpaired {
        Some(unit) => seq![unit],
        None => Seq::empty(),
    };
    if ki < name.len() {
        lemma_char_units(name[ki]);
        lemma_utf16_part(name, ki, ki + 1);
        lemma_one_char(name, ki);
    }
    if kj < name.len() {
        lemma_char_units(name[kj]);
        lemma_utf16_part(name, kj, kj + 1);
        lemma_one_char(name, kj);
    }
    lemma_order(name, i, ki, j, kj);
    lemma_utf16_part(name, from, to);
    let part = name.subrange(from, to);
    assert(row =~= (match half {
        Some(low) => seq![low],
        None => Seq::empty(),
    }) + utf16(part));
    lemma_decode_row(row, half, part);
    assert(part + name.skip(to) =~= name.skip(from));
    lemma_utf8_length_concat(name.take(from), name.skip(from));
    assert(name.take(from) + name.skip(from) =~= name);
}

/// The code units of one character of a name.
proof fn lemma_one_char(name: Seq<char>, k: int)
    requires
        0 <= k < name.len(),
    ensures
        utf16(name.subrange(k, k + 1)) == utf16_units(name[k]),
        utf16(name.take(k + 1)).len() == utf16(name.take(k)).len() + utf16_units(name[k]).len(),
{
    let one = name.subrange(k, k + 1);
    assert(one.drop_last() =~= Seq::empty());
    reveal_with_fuel(utf16, 2);
    assert(utf16(one) =~= utf16_units(name[k]));
    assert(name.take(k + 1).drop_last() =~= name.take(k));
}

/// Later code units stand at later characters.
proof fn lemma_order(name: Seq<char>, i: int, ki: int, j: int, kj: int)
    requires
        0 <= i < j <= utf16(name).len(),
        boundary(name, i, ki),
        boundary(name, j, kj),
    ensures
        ({
            let from: int = if utf16(name.take(ki)).len() == i {
                ki
            } else {
                ki + 1
            };
            let to: int = if utf16(name.take(kj)).len() == j {
                kj
            } else {
                kj + 1
            };
            from <= to
        }),
{
    if kj < ki {
        lemma_utf16_part(name, kj, ki);
        lemma_utf16_part(name, kj + 1, ki);
        lemma_one_char(name, kj);
        lemma_char_units(name[kj]);
    }
    if ki == kj && ki < name.len() {
        lemma_one_char(name, ki);
        lemma_char_units(name[ki]);
    }
}

/// How many pieces have been met, and the text that they make up, once the first
/// `n` slots of a long name were listed.
pub open spec fn gathered_pieces(
    gather: Gather,
    buffer: LfnText,
    raws: Seq<Seq<u8>>,
    n: nat,
) -> (Gather, LfnText)
    decreases n,
{
    if n == 0 {
        (gather, buffer)
    } else {
        let (met, text) = gathered_pieces(gather, buffer, raws, (n - 1) as nat);
        gathered(met, text, slot_lfn(raws[n - 1]))
    }
}

/// In front of the padding of a piece stands the piece.
proof fn lemma_before_nul(p: Seq<u16>)
    requires
        p.len() <= 13,
        forall|i: int| 0 <= i < p.len() ==> #[trigger] p[i] != 0,
    ensures
        before_nul(padded(p)) == p,
{
    lemma_before_nul_of(padded(p), p.len());
    assert(padded(p).take(p.len() as int) =~= p);
}

/// Only what stands in front of the first zero counts.
pub proof fn lemma_before_nul_of(units: Seq<u16>, n: nat)
    requires
        n <= units.len(),
        forall|i: int| 0 <= i < n ==> #[trigger] units[i] != 0,
        n < units.len() ==> units[n as int] == 0,
    ensures
        before_nul(units) == units.take(n as int),
    decreases n,
{
    if n > 0 {
        let rest = units.skip(1);
        assert forall|i: int| 0 <= i < n - 1 implies #[trigger] rest[i] != 0 by {
            assert(rest[i] == units[i + 1]);
        }
        lemma_before_nul_of(rest, (n - 1) as nat);
        assert(seq![units[0]] + rest.take(n - 1) =~= units.take(n as int));
    } else {
        assert(units.take(0) =~= Seq::empty());
    }
}

/// The text that the first `n` slots of a long name make up.
proof fn lemma_pieces_gathered(
    gather: Gather,
    buffer: LfnText,
    name: Seq<char>,
    checksum: u8,
    n: nat,
) -> (k: int)
    requires
        long_name_length(name) is Ok,
        utf8_length(name) <= buffer.capacity,
        1 <= n <= chain_bytes(name, checksum).len(),
    ensures
        ({
            let count = chain_bytes(name, checksum).len();
            let j = (count - n) * 13;
            &&& boundary(name, j, k)
            &&& gathered_pieces(gather, buffer, chain_bytes(name, checksum), n) == (
                if n < count {
                    Gather::Remaining { csum: checksum, next: (count - n) as u8 }
                } else {
                    Gather::Complete { csum: checksum }
                },
                filled_to(name, buffer.capacity, j, k),
            )
        }),
    decreases n,
{
    let units = utf16(name);
    let raws = chain_bytes(name, checksum);
    let count = raws.len();
    let i = n - 1;
    let p = piece(units, count - i);
    let j = (count - n) * 13;
    lemma_chain_slot(name, checksum, i);
    lemma_before_nul(p);
    let k = lemma_boundary(name, j);
    if n == 1 {
        let end = units.len() as int;
        assert(p =~= units.subrange(j, end));
        assert(name.take(name.len() as int) =~= name);
        assert(boundary(name, end, name.len() as int));
        lemma_fill_step(
            name,
            buffer.capacity,
            j,
            k,
            end,
            name.len() as int,
            slot_lfn(raws[i]).units,
        );
        assert(name.skip(name.len() as int) =~= Seq::empty());
        assert(filled_to(name, buffer.capacity, end, name.len() as int) == LfnText::empty(
            buffer.capacity,
        ));
        assert(gathered_pieces(gather, buffer, raws, 0) == (gather, buffer));
    } else {
        let ki = lemma_pieces_gathered(gather, buffer, name, checksum, (n - 1) as nat);
        let m = (count - i) * 13;
        assert(p =~= units.subrange(j, m));
        lemma_fill_step(name, buffer.capacity, j, k, m, ki, slot_lfn(raws[i]).units);
    }
    k
}

/// There is enough room for a name.
pub proof fn lemma_written_name_fits(buffer: LfnText, name: Seq<char>, checksum: u8)
    requires
        long_name_length(name) is Ok,
        utf8_length(name) <= buffer.capacity,
    ensures
        ({
            let raws = chain_bytes(name, checksum);
            !gathered_pieces(Gather::Waiting, buffer, raws, raws.len()).1.overflow
        }),
{
    let raws = chain_bytes(name, checksum);
    assert(raws.len() >= 1) by {
        lemma_utf16_len(name);
    }
    let k = lemma_pieces_gathered(Gather::Waiting, buffer, name, checksum, raws.len());
}

/// A long name that was written is listed: whatever came before, once the slots
/// that were written for it were met, the entry that they belong to is shown
/// under that name, given a buffer with enough room for it.
pub proof fn law_written_name_is_listed(
    gather: Gather,
    buffer: LfnText,
    name: Seq<char>,
    short_name: Seq<u8>,
)
    requires
        long_name_length(name) is Ok,
        utf8_length(name) <= buffer.capacity,
    ensures
        ({
            let raws = chain_bytes(name, csum_of(short_name));
            let (met, text) = gathered_pieces(gather, buffer, raws, raws.len());
            long_name_for(met, text, short_name) == Some(name)
        }),
{
    let checksum = csum_of(short_name);
    let raws = chain_bytes(name, checksum);
    assert(raws.len() >= 1) by {
        lemma_utf16_len(name);
    }
    let k = lemma_pieces_gathered(gather, buffer, name, checksum, raws.len());
    assert(k == 0) by {
        if k > 0 {
            lemma_utf16_len(name.take(k));
        }
    }
    assert(name.take(0) =~= Seq::empty());
    assert(name.skip(0) =~= name);
}

} // verus!
