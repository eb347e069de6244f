//! Short names for entries that have a long one.

use crate::collections::{
    alias_of, alias_text, decimal, empty_alias, empty_extension, empty_stem, empty_tail,
    extension_bytes, extension_of, hexadecimal, push_to_alias, push_to_extension, push_to_stem,
    push_to_tail, stem_bytes, stem_of, tail_of, write_digest, write_number,
};
use crate::block::{BlockCache, BlockDevice, Disk};
use crate::entry::{ClusterId, DirectoryInfo};
use crate::error::Error;
use crate::long_lookup::decided;
use crate::name::{
    is_reserved, name_steps, reserved_in_short_names, short_name_of, upper_byte, FilenameError,
    PartialName, ShortFileName,
};
use crate::table::Link;
use crate::volume::FatVolume;
use vstd::prelude::*;
use vstd::utf8::encode_utf8;

verus! {

/// What one character of a long name becomes in a short one. The result is
/// always ASCII.
pub open spec fn basis_of(c: char) -> u8 {
    if 'a' <= c <= 'z' {
        (c as u8 - 32) as u8
    } else if reserved_in_short_names(c) || c as u32 > 0x7F {
        95
    } else {
        c as u8
    }
}

/// Is `c` one of the characters that a short name is made without?
pub open spec fn skipped(c: char) -> bool {
    c == '.' || c == ' '
}

/// What a row of characters of a long name becomes in a short one.
pub open spec fn basis_bytes(s: Seq<char>) -> Seq<u8>
    decreases s.len(),
{
    if s.len() == 0 {
        Seq::empty()
    } else if skipped(s.last()) {
        basis_bytes(s.drop_last())
    } else {
        basis_bytes(s.drop_last()).push(basis_of(s.last()))
    }
}

/// At most the first `n` elements of `s`.
pub open spec fn at_most<A>(s: Seq<A>, n: int) -> Seq<A> {
    if s.len() <= n {
        s
    } else {
        s.take(n)
    }
}

/// Where the last dot of `s` stands, or -1.
pub open spec fn last_dot(s: Seq<char>) -> int
    decreases s.len(),
{
    if s.len() == 0 {
        -1
    } else if s.last() == '.' {
        s.len() - 1
    } else {
        last_dot(s.drop_last())
    }
}

/// The part of a long name that the stem of its short name is made from: up to
/// the last dot, unless that is the first character.
pub open spec fn stem_part(s: Seq<char>) -> Seq<char> {
    if last_dot(s) > 0 {
        s.take(last_dot(s))
    } else {
        s
    }
}

/// The part of a long name that the extension of its short name is made from.
pub open spec fn extension_part(s: Seq<char>) -> Seq<char> {
    if last_dot(s) > 0 {
        s.skip(last_dot(s) + 1)
    } else {
        Seq::empty()
    }
}

/// The stem that an alias is built from, of one to eight bytes.
pub open spec fn basis_stem(s: Seq<char>) -> Seq<u8> {
    let bytes = basis_bytes(stem_part(s));
    if bytes.len() == 0 {
        seq![95u8]
    } else {
        at_most(bytes, 8)
    }
}

/// The extension that an alias is built from, of up to three bytes.
pub open spec fn basis_extension(s: Seq<char>) -> Seq<u8> {
    at_most(basis_bytes(extension_part(s)), 3)
}

/// `sum` turned left by five bits, and then combined with `b`.
pub open spec fn digest_step(sum: u16, b: u8) -> u16 {
    ((sum % 2048 * 32 + sum / 2048) as u16) ^ (b as u16)
}

/// A digest of some bytes.
pub open spec fn digest_of(bytes: Seq<u8>) -> u16
    decreases bytes.len(),
{
    if bytes.len() == 0 {
        0x1505
    } else {
        digest_step(digest_of(bytes.drop_last()), bytes.last())
    }
}

/// The bytes of ASCII characters.
pub open spec fn ascii_bytes(s: Seq<char>) -> Seq<u8> {
    Seq::new(s.len(), |i: int| s[i] as u8)
}

/// The characters of ASCII bytes.
pub open spec fn ascii_chars(s: Seq<u8>) -> Seq<char> {
    Seq::new(s.len(), |i: int| s[i] as char)
}

/// Are all of these ASCII?
pub open spec fn all_ascii(s: Seq<u8>) -> bool {
    forall|i: int| 0 <= i < s.len() ==> #[trigger] s[i] < 0x80
}

/// The name that a stem and an extension make up.
pub open spec fn alias_chars(stem: Seq<u8>, extension: Seq<u8>) -> Seq<char> {
    ascii_chars(at_most(stem, 8)) + if extension.len() == 0 {
        Seq::empty()
    } else {
        seq!['.'] + ascii_chars(at_most(extension, 3))
    }
}

/// A stem with a tilde and a number, shortened to leave room for them.
pub open spec fn numbered_stem(base: Seq<u8>, number: nat) -> Seq<u8> {
    let tail = ascii_bytes(seq!['~'] + decimal(number));
    let keep: int = if tail.len() >= 8 {
        1
    } else {
        8 - tail.len()
    };
    at_most(at_most(base, keep) + tail, 8)
}

/// Two bytes of a stem, the digits of a digest, a tilde and a one.
pub open spec fn hashed_stem(base: Seq<u8>, digest: u16) -> Seq<u8> {
    at_most(at_most(base, 2) + ascii_bytes(hexadecimal(digest) + seq!['~', '1']), 8)
}

/// Map one character of a long name into what an 8.3 alias can hold.
///
/// The result is always ASCII. A short name is eleven raw bytes with no
/// encoding attached, so anything outside ASCII would be guesswork -- and one
/// byte in particular, `0xE5`, means "this entry is deleted".
fn basis_byte(c: char) -> (byte: u8)
    ensures
        byte == basis_of(c),
{
    if is_reserved(c) || c as u32 > 0x7F {
        95
    } else {
        upper_byte(c)
    }
}

/// Find the last dot.
fn find_last_dot(name: &str) -> (position: Option<usize>)
    ensures
        match position {
            Some(i) => i == last_dot(name@),
            None => last_dot(name@) == -1,
        },
{
    let mut position: Option<usize> = None;
    let mut index: usize = 0;
    let length: usize = name.unicode_len();
    assert(name@.take(0) =~= Seq::<char>::empty());
    for c in it: name.chars()
        invariant
            it.seq() == name@,
            length == name@.len(),
            index == it.index(),
            match position {
                Some(i) => i == last_dot(name@.take(it.index())),
                None => last_dot(name@.take(it.index())) == -1,
            },
    {
        assert(name@.take(it.index() + 1).drop_last() =~= name@.take(it.index()));
        if c == '.' {
            position = Some(index);
        }
        index += 1;
    }
    assert(name@.take(name@.len() as int) =~= name@);
    position
}

/// Taking no more than `n` of something longer.
proof fn lemma_at_most_push<A>(s: Seq<A>, x: A, n: int)
    requires
        n >= 0,
    ensures
        at_most(s.push(x), n) == if s.len() < n {
            at_most(s, n).push(x)
        } else {
            at_most(s, n)
        },
{
    if s.len() >= n {
        assert(s.push(x).take(n) =~= s.take(n));
        assert(s.take(s.len() as int) =~= s);
    }
}

/// The last dot is a dot inside the name, and there is none behind it.
proof fn lemma_last_dot(s: Seq<char>)
    ensures
        -1 <= last_dot(s) < s.len(),
        last_dot(s) >= 0 ==> s[last_dot(s)] == '.',
        forall|i: int| last_dot(s) < i < s.len() ==> #[trigger] s[i] != '.',
    decreases s.len(),
{
    if s.len() > 0 {
        let front = s.drop_last();
        lemma_last_dot(front);
        assert forall|i: int| last_dot(s) < i < s.len() implies #[trigger] s[i] != '.' by {
            if i < front.len() {
                assert(front[i] == s[i]);
            }
        }
    }
}

/// Split a long name into the stem and extension an alias is built from.
///
/// Spaces and interior dots go: FAT allows neither, and dropping them is what
/// makes `A Real Book.epub` read as `AREALBO` rather than `A_REAL_`.
fn short_name_basis(long_name: &str) -> (basis: (heapless::Vec<u8, 8>, heapless::Vec<u8, 3>))
    ensures
        stem_bytes(basis.0) == basis_stem(long_name@),
        extension_bytes(basis.1) == basis_extension(long_name@),
{
    let length: usize = long_name.unicode_len();
    let split: usize = match find_last_dot(long_name) {
        Some(i) if i > 0 => i,
        _ => length,
    };
    let mut base = empty_stem();
    let mut extension = empty_extension();
    let mut index: usize = 0;
    proof {
        lemma_last_dot(long_name@);
        assert(stem_part(long_name@) =~= long_name@.take(split as int));
        assert(long_name@.take(0) =~= Seq::<char>::empty());
    }
    for c in it: long_name.chars()
        invariant
            it.seq() == long_name@,
            length == long_name@.len(),
            index == it.index(),
            split <= length,
            stem_bytes(base) == at_most(
                basis_bytes(
                    long_name@.take(
                        if index < split {
                            index as int
                        } else {
                            split as int
                        },
                    ),
                ),
                8,
            ),
            extension_bytes(extension) == at_most(
                basis_bytes(
                    if index <= split {
                        Seq::empty()
                    } else {
                        long_name@.subrange(split + 1, index as int)
                    },
                ),
                3,
            ),
    {
        proof {
            if index < split {
                let part = long_name@.take(index + 1);
                assert(part.drop_last() =~= long_name@.take(index as int));
                assert(part.last() == c);
                lemma_at_most_push(basis_bytes(part.drop_last()), basis_of(c), 8);
            } else if index > split {
                let part = long_name@.subrange(split + 1, index + 1);
                assert(part.drop_last() =~= long_name@.subrange(split + 1, index as int));
                assert(part.last() == c);
                lemma_at_most_push(basis_bytes(part.drop_last()), basis_of(c), 3);
            } else {
                assert(long_name@.subrange(split + 1, split + 1) =~= Seq::empty());
            }
        }
        if c != '.' && c != ' ' {
            if index < split {
                let _ = push_to_stem(&mut base, basis_byte(c));
            } else if index > split {
                let _ = push_to_extension(&mut extension, basis_byte(c));
            }
        }
        index += 1;
    }
    proof {
        if last_dot(long_name@) > 0 {
            assert(long_name@.subrange(split + 1, length as int) =~= extension_part(long_name@));
        }
    }
    if stem_of(&base).len() == 0 {
        let _ = push_to_stem(&mut base, 95);
        assert(stem_bytes(base) =~= seq![95u8]);
    }
    (base, extension)
}

/// A 16-bit digest of the long name, used to spread aliases out once the
/// readable `~N` forms are gone. Only determinism matters here.
fn long_name_digest(long_name: &str) -> (digest: u16)
    ensures
        digest == digest_of(encode_utf8(long_name@)),
{
    let bytes = long_name.as_bytes();
    let mut hash: u16 = 0x1505;
    let mut i: usize = 0;
    while i < bytes.len()
        invariant
            i <= bytes@.len(),
            hash == digest_of(bytes@.take(i as int)),
        decreases bytes@.len() - i,
    {
        assert(bytes@.take(i + 1).drop_last() =~= bytes@.take(i as int));
        hash = (hash % 2048 * 32 + hash / 2048) ^ (bytes[i] as u16);
        i += 1;
    }
    assert(bytes@.take(bytes@.len() as int) =~= bytes@);
    hash
}

/// Assemble `BASE.EXT` from parts that are already ASCII.
///
/// Eight characters of base, a dot and three of extension is twelve, which is
/// the buffer, so nothing here can overflow.
fn assemble_alias(base: &[u8], ext: &[u8]) -> (alias: heapless::String<12>)
    requires
        all_ascii(base@),
        all_ascii(ext@),
    ensures
        alias_text(alias) == alias_chars(base@, ext@),
{
    let mut out = empty_alias();
    let mut i: usize = 0;
    while i < base.len() && i < 8
        invariant
            i <= base@.len(),
            i <= 8,
            all_ascii(base@),
            alias_text(out) == ascii_chars(base@.take(i as int)),
        decreases 8 - i,
    {
        let _ = push_to_alias(&mut out, base[i] as char);
        i += 1;
        assert(alias_text(out) =~= ascii_chars(base@.take(i as int)));
    }
    assert(base@.take(i as int) =~= at_most(base@, 8));
    let ghost stem = alias_text(out);
    if ext.len() > 0 {
        let _ = push_to_alias(&mut out, '.');
        let mut j: usize = 0;
        assert(alias_text(out) =~= stem + (seq!['.'] + ascii_chars(ext@.take(0))));
        while j < ext.len() && j < 3
            invariant
                j <= ext@.len(),
                j <= 3,
                all_ascii(ext@),
                stem.len() <= 8,
                forall|k: int| 0 <= k < stem.len() ==> (#[trigger] stem[k] as u32) < 0x80,
                alias_text(out) == stem + (seq!['.'] + ascii_chars(ext@.take(j as int))),
            decreases 3 - j,
        {
            let _ = push_to_alias(&mut out, ext[j] as char);
            j += 1;
            assert(alias_text(out) =~= stem + (seq!['.'] + ascii_chars(ext@.take(j as int))));
        }
        assert(ext@.take(j as int) =~= at_most(ext@, 3));
    }
    assert(alias_text(out) =~= alias_chars(base@, ext@));
    out
}

/// The bytes of a text of ASCII characters, put behind those of a stem as far as
/// there is room.
fn append_to_stem(stem: &mut heapless::Vec<u8, 8>, text: &str)
    requires
        forall|i: int| 0 <= i < text@.len() ==> (#[trigger] text@[i] as u32) < 0x80,
        stem_bytes(*old(stem)).len() <= 8,
    ensures
        stem_bytes(*final(stem)) == at_most(stem_bytes(*old(stem)) + ascii_bytes(text@), 8),
{
    let ghost before = stem_bytes(*stem);
    assert(at_most(before + ascii_bytes(text@.take(0)), 8) =~= before);
    for c in it: text.chars()
        invariant
            it.seq() == text@,
            forall|i: int| 0 <= i < text@.len() ==> (#[trigger] text@[i] as u32) < 0x80,
            stem_bytes(*stem) == at_most(before + ascii_bytes(text@.take(it.index())), 8),
    {
        proof {
            assert(text@[it.index()] == c);
            let so_far = before + ascii_bytes(text@.take(it.index()));
            assert(before + ascii_bytes(text@.take(it.index() + 1)) =~= so_far.push(c as u8));
            lemma_at_most_push(so_far, c as u8, 8);
        }
        let _ = push_to_stem(stem, c as u8);
    }
    assert(text@.take(text@.len() as int) =~= text@);
}

/// The first `n` bytes of a stem, or all of them if there are fewer.
fn shortened_stem(base: &[u8], n: usize) -> (stem: heapless::Vec<u8, 8>)
    requires
        n <= 8,
    ensures
        stem_bytes(stem) == at_most(base@, n as int),
{
    let mut stem = empty_stem();
    let mut i: usize = 0;
    while i < base.len() && i < n
        invariant
            i <= base@.len(),
            i <= n <= 8,
            stem_bytes(stem) == base@.take(i as int),
        decreases n - i,
    {
        let _ = push_to_stem(&mut stem, base[i]);
        i += 1;
        assert(stem_bytes(stem) =~= base@.take(i as int));
    }
    assert(base@.take(i as int) =~= at_most(base@, n as int));
    stem
}

/// Can `b` stand in the stem or the extension of a short name as it is?
pub open spec fn alias_byte(b: u8) -> bool {
    &&& b < 0x80
    &&& !reserved_in_short_names(b as char)
    &&& b != 32
    &&& b != 46
    &&& !(97 <= b <= 122)
}

/// Can each of these stand in a short name as it is?
pub open spec fn all_alias_bytes(s: Seq<u8>) -> bool {
    forall|i: int| 0 <= i < s.len() ==> alias_byte(#[trigger] s[i])
}

/// An ASCII character is that of its byte.
proof fn lemma_ascii_char(c: char)
    requires
        (c as u32) < 0x80,
    ensures
        c as u8 == c as u32,
        (c as u8) as char == c,
{
}

/// What a long name is turned into can stand in a short name.
proof fn lemma_basis_bytes(s: Seq<char>)
    ensures
        all_alias_bytes(basis_bytes(s)),
    decreases s.len(),
{
    if s.len() > 0 {
        lemma_basis_bytes(s.drop_last());
        if !skipped(s.last()) {
            let c = s.last();
            let b = basis_of(c);
            assert(alias_byte(b)) by {
                if !('a' <= c <= 'z' || reserved_in_short_names(c) || c as u32 > 0x7F) {
                    lemma_ascii_char(c);
                }
            }
        }
    }
}

/// Is the last dot of `s` the one at `d`?
pub open spec fn is_last_dot(s: Seq<char>, d: int) -> bool {
    0 <= d < s.len() && s[d] == '.' && forall|i: int| d < i < s.len() ==> #[trigger] s[i] != '.'
}

/// A name that holds nothing but dots and spaces leaves nothing for a short one.
proof fn lemma_nothing_left(s: Seq<char>)
    ensures
        basis_bytes(s).len() == 0 <==> forall|i: int|
            0 <= i < s.len() ==> #[trigger] s[i] == '.' || s[i] == ' ',
    decreases s.len(),
{
    if s.len() > 0 {
        let front = s.drop_last();
        lemma_nothing_left(front);
        assert(forall|i: int| 0 <= i < front.len() ==> #[trigger] front[i] == s[i]);
        if skipped(s.last()) && basis_bytes(front).len() == 0 {
            assert forall|i: int| 0 <= i < s.len() implies #[trigger] s[i] == '.' || s[i]
                == ' ' by {
                if i < front.len() {
                    assert(front[i] == '.' || front[i] == ' ');
                }
            }
        }
        if forall|i: int| 0 <= i < s.len() ==> #[trigger] s[i] == '.' || s[i] == ' ' {
            assert(s[s.len() - 1] == '.' || s[s.len() - 1] == ' ');
            assert forall|i: int| 0 <= i < front.len() implies #[trigger] front[i] == '.'
                || front[i] == ' ' by {
                assert(s[i] == '.' || s[i] == ' ');
            }
        }
    }
}

/// The stem and the extension that an alias is built from can stand in a short
/// name as they are, whatever the long name is: they are ASCII, with no lower
/// case letter, no space, no dot and no reserved character.
///
/// The extension is made of what stands behind the last dot, and the stem of what
/// stands in front of it. Where there is no dot, or the last one is the first
/// character, the extension is empty and the stem is made of the whole name. Where
/// the stem would be made of nothing but dots and spaces, it is an underscore.
pub proof fn law_basis_fits_short_names(s: Seq<char>)
    ensures
        all_alias_bytes(basis_stem(s)),
        1 <= basis_stem(s).len() <= 8,
        all_alias_bytes(basis_extension(s)),
        basis_extension(s).len() <= 3,
        forall|d: int|
            #[trigger] is_last_dot(s, d) && d > 0 ==> stem_part(s) == s.take(d) && basis_extension(s)
                == at_most(basis_bytes(s.skip(d + 1)), 3),
        (!exists|d: int| #[trigger] is_last_dot(s, d) && d > 0) ==> stem_part(s) == s
            && basis_extension(s).len() == 0,
        (forall|i: int|
            0 <= i < stem_part(s).len() ==> #[trigger] stem_part(s)[i] == '.' || stem_part(s)[i]
                == ' ') ==> basis_stem(s) == seq![95u8],
        !(forall|i: int|
            0 <= i < stem_part(s).len() ==> #[trigger] stem_part(s)[i] == '.' || stem_part(s)[i]
                == ' ') ==> basis_stem(s) == at_most(basis_bytes(stem_part(s)), 8),
{
    lemma_basis_bytes(stem_part(s));
    lemma_basis_bytes(extension_part(s));
    lemma_last_dot(s);
    lemma_nothing_left(stem_part(s));
    assert forall|d: int| #[trigger] is_last_dot(s, d) implies d == last_dot(s) by {
        if d < last_dot(s) {
            assert(s[last_dot(s)] != '.');
        }
        if last_dot(s) < d {
            assert(s[d] != '.');
        }
    }
    if last_dot(s) > 0 {
        assert(is_last_dot(s, last_dot(s)));
    }
}

/// The digits of a number are decimal digits.
proof fn lemma_decimal(n: nat)
    ensures
        decimal(n).len() >= 1,
        forall|i: int| 0 <= i < decimal(n).len() ==> 48 <= (#[trigger] decimal(n)[i] as u32) <= 57,
    decreases n,
{
    if n >= 10 {
        lemma_decimal(n / 10);
    }
}

/// A numbered stem can stand in a short name.
proof fn lemma_numbered_stem(base: Seq<u8>, number: nat)
    requires
        all_alias_bytes(base),
        base.len() >= 1,
    ensures
        all_alias_bytes(numbered_stem(base, number)),
        1 <= numbered_stem(base, number).len() <= 8,
{
    lemma_decimal(number);
    let text = seq!['~'] + decimal(number);
    assert forall|i: int| 0 <= i < text.len() implies alias_byte(
        #[trigger] ascii_bytes(text)[i],
    ) by {
        if i > 0 {
            assert(text[i] == decimal(number)[i - 1]);
        }
        lemma_ascii_char(text[i]);
    }
}

/// A hashed stem can stand in a short name.
proof fn lemma_hashed_stem(base: Seq<u8>, digest: u16)
    requires
        all_alias_bytes(base),
        base.len() >= 1,
    ensures
        all_alias_bytes(hashed_stem(base, digest)),
        1 <= hashed_stem(base, digest).len() <= 8,
{
    let text = hexadecimal(digest) + seq!['~', '1'];
    assert(forall|i: int| 0 <= i < text.len() ==> alias_byte(#[trigger] ascii_bytes(text)[i]));
}

/// The eleven bytes of a short name with this stem and this extension.
pub open spec fn alias_name(stem: Seq<u8>, extension: Seq<u8>) -> Seq<u8> {
    Seq::new(
        11,
        |i: int|
            if i < 8 {
                if i < stem.len() {
                    stem[i]
                } else {
                    32
                }
            } else if i - 8 < extension.len() {
                extension[i - 8]
            } else {
                32
            },
    )
}

/// A stem is read as it is.
proof fn lemma_stem_steps(stem: Seq<u8>)
    requires
        all_alias_bytes(stem),
        stem.len() <= 8,
    ensures
        name_steps(ascii_chars(stem)) == Ok::<PartialName, FilenameError>(
            (PartialName {
                contents: alias_name(stem, Seq::empty()),
                next: stem.len() as int,
                seen_dot: false,
            }),
        ),
    decreases stem.len(),
{
    let text = ascii_chars(stem);
    if stem.len() == 0 {
        assert(alias_name(stem, Seq::empty()) =~= Seq::new(11, |i: int| 32u8));
    } else {
        lemma_stem_steps(stem.drop_last());
        assert(text.drop_last() =~= ascii_chars(stem.drop_last()));
        assert(alias_byte(stem.last()));
        assert(alias_name(stem, Seq::empty()) =~= alias_name(
            stem.drop_last(),
            Seq::empty(),
        ).update(stem.len() - 1, stem.last()));
    }
}

/// A stem, a dot and an extension are read as they are.
proof fn lemma_extension_steps(stem: Seq<u8>, extension: Seq<u8>)
    requires
        all_alias_bytes(stem),
        1 <= stem.len() <= 8,
        all_alias_bytes(extension),
        extension.len() <= 3,
    ensures
        name_steps(ascii_chars(stem) + (seq!['.'] + ascii_chars(extension))) == Ok::<
            PartialName,
            FilenameError,
        >(
            (PartialName {
                contents: alias_name(stem, extension),
                next: 8 + extension.len() as int,
                seen_dot: true,
            }),
        ),
    decreases extension.len(),
{
    let text = ascii_chars(stem) + (seq!['.'] + ascii_chars(extension));
    if extension.len() == 0 {
        lemma_stem_steps(stem);
        assert(text.drop_last() =~= ascii_chars(stem));
        assert(alias_name(stem, extension) =~= alias_name(stem, Seq::empty()));
    } else {
        lemma_extension_steps(stem, extension.drop_last());
        assert(text.drop_last() =~= ascii_chars(stem) + (seq!['.'] + ascii_chars(
            extension.drop_last(),
        )));
        assert(alias_byte(extension.last()));
        assert(text.last() == extension.last() as char);
        assert(alias_name(stem, extension) =~= alias_name(stem, extension.drop_last()).update(
            8 + extension.len() - 1,
            extension.last(),
        ));
    }
}

/// An alias is always a good short name, whose eleven bytes are its stem and its
/// extension.
pub proof fn lemma_alias_is_short_name(stem: Seq<u8>, extension: Seq<u8>)
    requires
        all_alias_bytes(stem),
        1 <= stem.len() <= 8,
        all_alias_bytes(extension),
        extension.len() <= 3,
    ensures
        short_name_of(alias_chars(stem, extension)) == Ok::<Seq<u8>, FilenameError>(
            alias_name(stem, extension),
        ),
{
    let text = alias_chars(stem, extension);
    assert(alias_byte(stem[0]));
    assert(text[0] == stem[0] as char);
    assert(text[0] != '.');
    if extension.len() == 0 {
        lemma_stem_steps(stem);
        assert(text =~= ascii_chars(stem));
        assert(alias_name(stem, extension) =~= alias_name(stem, Seq::empty()));
    } else {
        lemma_extension_steps(stem, extension);
        assert(text =~= ascii_chars(stem) + (seq!['.'] + ascii_chars(extension)));
    }
}

/// `BASE~N`, with the base shortened to leave room for the tail.
fn compose_alias(base: &[u8], ext: &[u8], tail: u32) -> (alias: heapless::String<12>)
    requires
        all_ascii(base@),
        all_ascii(ext@),
        tail <= 9_999_999,
    ensures
        alias_text(alias) == alias_chars(numbered_stem(base@, tail as nat), ext@),
{
    let mut suffix = empty_tail();
    let _ = push_to_tail(&mut suffix, '~');
    write_number(&mut suffix, tail);
    let text = tail_of(&suffix);
    assert(text@ =~= seq!['~'] + decimal(tail as nat));
    proof {
        lemma_decimal(tail as nat);
        assert forall|i: int| 0 <= i < text@.len() implies (#[trigger] text@[i] as u32) < 0x80 by {
            if i > 0 {
                assert(text@[i] == decimal(tail as nat)[i - 1]);
            }
        }
    }
    let length: usize = text.unicode_len();
    let keep: usize = if length >= 8 {
        1
    } else {
        8 - length
    };
    let mut stem = shortened_stem(base, keep);
    append_to_stem(&mut stem, text);
    assert(stem_bytes(stem) == numbered_stem(base@, tail as nat));
    assert(all_ascii(ascii_bytes(text@))) by {
        assert forall|i: int| 0 <= i < text@.len() implies #[trigger] ascii_bytes(text@)[i]
            < 0x80 by {
            lemma_ascii_char(text@[i]);
        }
    }
    assert(all_ascii(stem_bytes(stem)));
    assemble_alias(stem_of(&stem), ext)
}

/// `BBHHHH~1`: two characters of base, four hex digits of digest, and a tail.
///
/// Once the readable forms are taken this is what the search moves to. It
/// gives 65536 candidates for one directory rather than the 999 a decimal tail
/// allows, which matters for a library that expects to hold thousands of books
/// whose names may share an opening.
fn compose_hashed_alias(base: &[u8], ext: &[u8], digest: u16) -> (alias: heapless::String<12>)
    requires
        all_ascii(base@),
        all_ascii(ext@),
    ensures
        alias_text(alias) == alias_chars(hashed_stem(base@, digest), ext@),
{
    let mut hex = empty_tail();
    write_digest(&mut hex, digest);
    let _ = push_to_tail(&mut hex, '~');
    let _ = push_to_tail(&mut hex, '1');
    let text = tail_of(&hex);
    assert(text@ =~= hexadecimal(digest) + seq!['~', '1']);
    let mut stem = shortened_stem(base, 2);
    append_to_stem(&mut stem, text);
    assert(all_ascii(stem_bytes(stem)));
    assemble_alias(stem_of(&stem), ext)
}

/// How many aliases are tried.
pub open spec fn alias_count() -> nat {
    65540
}

/// The stem of the alias that is tried as number `i`, counting from zero: four
/// readable ones, and then those with a digest.
pub open spec fn tried_stem(base: Seq<u8>, digest: u16, i: nat) -> Seq<u8> {
    if i < 4 {
        numbered_stem(base, i + 1)
    } else {
        hashed_stem(base, ((digest + (i - 4)) % 65536) as u16)
    }
}

/// The stem of the alias that is tried as number `i`, counting from zero.
pub open spec fn candidate_stem(long_name: Seq<char>, i: nat) -> Seq<u8> {
    tried_stem(basis_stem(long_name), digest_of(encode_utf8(long_name)), i)
}

/// The alias that is tried as number `i`, counting from zero.
pub open spec fn candidate(long_name: Seq<char>, i: nat) -> Seq<char> {
    alias_chars(candidate_stem(long_name, i), basis_extension(long_name))
}

/// The eleven bytes of the alias that is tried as number `i`.
pub open spec fn candidate_name(long_name: Seq<char>, i: nat) -> Seq<u8> {
    alias_name(candidate_stem(long_name, i), basis_extension(long_name))
}

/// Every alias that is tried is a good short name.
pub proof fn lemma_candidate(long_name: Seq<char>, i: nat)
    ensures
        short_name_of(candidate(long_name, i)) == Ok::<Seq<u8>, FilenameError>(
            candidate_name(long_name, i),
        ),
        all_alias_bytes(candidate_stem(long_name, i)),
        1 <= candidate_stem(long_name, i).len() <= 8,
        all_alias_bytes(basis_extension(long_name)),
{
    law_basis_fits_short_names(long_name);
    let base = basis_stem(long_name);
    if i < 4 {
        lemma_numbered_stem(base, i + 1);
    } else {
        lemma_hashed_stem(base, ((digest_of(encode_utf8(long_name)) + (i - 4)) % 65536) as u16);
    }
    lemma_alias_is_short_name(candidate_stem(long_name, i), basis_extension(long_name));
}

/// Compose the alias that is tried as number `i`.
///
/// The readable forms come first, so an alias glanced at on a computer still
/// resembles the file it belongs to. Starting from the name's own digest after
/// that means two different names rarely probe the same candidate first.
fn compose_candidate(base: &[u8], ext: &[u8], digest: u16, i: u32) -> (alias: heapless::String<12>)
    requires
        all_ascii(base@),
        all_ascii(ext@),
        i < alias_count(),
    ensures
        alias_text(alias) == alias_chars(tried_stem(base@, digest, i as nat), ext@),
{
    if i < 4 {
        compose_alias(base, ext, i + 1)
    } else {
        let probe: u16 = (i - 4) as u16;
        compose_hashed_alias(base, ext, digest.wrapping_add(probe))
    }
}

/// How the search for an alias ends.
pub enum AliasOutcome {
    /// With the alias of this number.
    Free(nat),
    /// With none, because all are taken.
    Exhausted,
    /// The chain of the directory is broken.
    Broken(Link),
}

impl FatVolume {
    /// How the search for an alias ends, from the one numbered `i` on; or `None`
    /// if one of the lookups does not end or goes out of reach.
    pub open spec fn alias_search(
        self,
        disk: Disk,
        dir: ClusterId,
        long_name: Seq<char>,
        i: nat,
    ) -> Option<AliasOutcome>
        decreases alias_count() - i,
    {
        if i >= alias_count() {
            Some(AliasOutcome::Exhausted)
        } else {
            match self.name_taken(disk, dir, candidate(long_name, i)) {
                None => None,
                Some((taken, link)) => if link is Bad || link is Free {
                    Some(AliasOutcome::Broken(link))
                } else if taken {
                    self.alias_search(disk, dir, long_name, i + 1)
                } else {
                    Some(AliasOutcome::Free(i))
                },
            }
        }
    }

    /// Take `candidate` as an alias if the directory has nothing by that name.
    fn claim_alias<D: BlockDevice>(
        &self,
        block_cache: &mut BlockCache<D>,
        dir_info: &DirectoryInfo,
        candidate: &str,
    ) -> (result: Result<Option<ShortFileName>, Error<D::Error>>)
        requires
            old(block_cache).clean(),
            short_name_of(candidate@) is Ok ==> self.name_taken(
                old(block_cache).disk(),
                dir_info.cluster,
                candidate@,
            ) is Some,
        ensures
            final(block_cache).clean(),
            final(block_cache).disk() == old(block_cache).disk(),
            match short_name_of(candidate@) {
                Err(_) => {
                    &&& final(block_cache).untroubled(old(block_cache))
                    &&& result matches Err(Error::FilenameError(FilenameError::InvalidCharacter))
                },
                Ok(bytes) => if final(block_cache).untroubled(old(block_cache)) {
                    let answer = self.name_taken(
                        old(block_cache).disk(),
                        dir_info.cluster,
                        candidate@,
                    )->0;
                    match decided::<D::Error>(answer) {
                        Ok(true) => result matches Ok(None),
                        Ok(false) => result matches Ok(Some(sfn)) && sfn.contents@ == bytes,
                        Err(error) => result matches Err(e) && e == error,
                    }
                } else {
                    result matches Err(Error::DeviceError(e)) && final(block_cache).failed_with(
                        old(block_cache),
                        e,
                    )
                },
            },
    {
        let sfn = match ShortFileName::create_from_str(candidate) {
            Ok(sfn) => sfn,
            Err(_) => return Err(Error::FilenameError(FilenameError::InvalidCharacter)),
        };
        match self.name_is_taken(block_cache, dir_info, candidate) {
            Ok(true) => Ok(None),
            Ok(false) => Ok(Some(sfn)),
            Err(e) => Err(e),
        }
    }

    /// An operation that gives the alias under which a long name is to be filed in a
    /// directory, and changes nothing.
    pub open spec fn gives_alias<D: BlockDevice>(
        self,
        before: BlockCache<D>,
        dir: ClusterId,
        long_name: Seq<char>,
        after: BlockCache<D>,
        result: Result<ShortFileName, Error<D::Error>>,
    ) -> bool {
        &&& after.disk() == before.disk()
        &&& if after.untroubled(&before) {
            match self.alias_search(before.disk(), dir, long_name, 0)->0 {
                AliasOutcome::Free(i) => {
                    result matches Ok(sfn) && sfn.contents@ == candidate_name(long_name, i)
                },
                AliasOutcome::Exhausted => result matches Err(Error::FileAlreadyExists),
                AliasOutcome::Broken(Link::Bad) => result matches Err(Error::BadCluster),
                AliasOutcome::Broken(_) => result matches Err(Error::UnterminatedFatChain),
            }
        } else {
            result matches Err(Error::DeviceError(e)) && after.failed_with(&before, e)
        }
    }

    /// Work out the 8.3 alias a long name will be filed under.
    ///
    /// The alias is derived from the long name so it stays recognisable --
    /// upper-cased, spaces and interior dots removed, anything outside ASCII
    /// or outside what 8.3 permits replaced with `_` -- and then given a `~1`
    /// to `~4` tail until nothing in the directory answers to it. The base is
    /// shortened to make room, so `A Real Book.epub` becomes `AREALB~1.EPU`.
    ///
    /// Past `~4` readability stops being worth the search, and the tail
    /// becomes two characters of base followed by four hex digits of a digest
    /// of the long name.
    ///
    /// Gives up with `Error::FileAlreadyExists` only once that space is
    /// exhausted too.
    pub fn generate_short_alias<D: BlockDevice>(
        &self,
        block_cache: &mut BlockCache<D>,
        dir_info: &DirectoryInfo,
        long_name: &str,
    ) -> (result: Result<ShortFileName, Error<D::Error>>)
        requires
            old(block_cache).clean(),
            self.alias_search(old(block_cache).disk(), dir_info.cluster, long_name@, 0) is Some,
        ensures
            final(block_cache).clean(),
            final(block_cache).disk() == old(block_cache).disk(),
            self.gives_alias(
                *old(block_cache),
                dir_info.cluster,
                long_name@,
                *final(block_cache),
                result,
            ),
    {
        let ghost disk = block_cache.disk();
        let (stem, extension) = short_name_basis(long_name);
        let base = stem_of(&stem);
        let ext = extension_of(&extension);
        let digest: u16 = long_name_digest(long_name);
        proof {
            law_basis_fits_short_names(long_name@);
        }
        let mut i: u32 = 0;
        while i < 65540
            invariant
                i <= 65540,
                block_cache.clean(),
                block_cache.disk() == disk,
                disk == old(block_cache).disk(),
                block_cache.untroubled(old(block_cache)),
                base@ == basis_stem(long_name@),
                ext@ == basis_extension(long_name@),
                all_ascii(base@),
                all_ascii(ext@),
                digest == digest_of(encode_utf8(long_name@)),
                self.alias_search(disk, dir_info.cluster, long_name@, 0) is Some,
                self.alias_search(disk, dir_info.cluster, long_name@, 0) == self.alias_search(
                    disk,
                    dir_info.cluster,
                    long_name@,
                    i as nat,
                ),
            decreases 65540 - i,
        {
            proof {
                lemma_candidate(long_name@, i as nat);
            }
            let alias = compose_candidate(base, ext, digest, i);
            assert(alias_text(alias) == candidate(long_name@, i as nat));
            match self.claim_alias(block_cache, dir_info, alias_of(&alias)) {
                Ok(Some(sfn)) => return Ok(sfn),
                Ok(None) => {},
                Err(e) => return Err(e),
            }
            i += 1;
        }
        Err(Error::FileAlreadyExists)
    }
}

} // verus!
