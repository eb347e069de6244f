//! What the short names that stand in for long ones look like.

use crate::alias::{
    alias_count, ascii_bytes, at_most, basis_bytes, basis_extension, basis_of, basis_stem,
    candidate, candidate_name, candidate_stem, digest_of, extension_part, hashed_stem, last_dot,
    law_basis_fits_short_names, numbered_stem, skipped, stem_part, AliasOutcome,
};
use crate::block::Disk;
use crate::collections::{decimal, digit, hexadecimal};
use crate::entry::ClusterId;
use crate::table::Link;
use crate::volume::FatVolume;
use vstd::prelude::*;
use vstd::utf8::encode_utf8;

verus! {

/// The byte that a character of a long name is given in a short one: its own, if it
/// is a digit, an upper case letter, or one of the other signs that a short name may
/// hold; that of the upper case letter, if it is a lower case one; else that of an
/// underscore.
pub open spec fn short_byte(c: char) -> int {
    let n = c as int;
    if 0x61 <= n <= 0x7A {
        n - 0x20
    } else if 0x30 <= n <= 0x39 || 0x41 <= n <= 0x5A || n == 0x21 || 0x23 <= n <= 0x29 || n == 0x2D
        || n == 0x40 || 0x5E <= n <= 0x60 || n == 0x7B || 0x7D <= n <= 0x7F {
        n
    } else {
        0x5F
    }
}

/// The characters of a name without its dots and spaces.
pub open spec fn without_gaps(s: Seq<char>) -> Seq<char> {
    s.filter(|c: char| c as int != 0x2E && c as int != 0x20)
}

/// What a character becomes is its byte.
proof fn lemma_basis_is_short_byte(c: char)
    requires
        !skipped(c),
    ensures
        basis_of(c) == short_byte(c),
{
    if c as u32 <= 0x7F {
        assert(c as u8 == c as u32);
    }
}

/// What a row of characters becomes: each of them is given its byte, in order, and
/// dots and spaces are left out.
pub proof fn law_characters_keep_their_bytes(s: Seq<char>, i: int)
    ensures
        basis_bytes(s).len() == without_gaps(s).len(),
        0 <= i < without_gaps(s).len() ==> basis_bytes(s)[i] == short_byte(without_gaps(s)[i]),
    decreases s.len(),
{
    reveal(Seq::filter);
    if s.len() > 0 {
        law_characters_keep_their_bytes(s.drop_last(), i);
        if !skipped(s.last()) {
            lemma_basis_is_short_byte(s.last());
        }
    }
}

/// A name that holds no dot and no space keeps its length.
pub proof fn law_names_without_gaps_are_whole(s: Seq<char>)
    requires
        forall|i: int|
            0 <= i < s.len() ==> (#[trigger] s[i]) as int != 0x2E && s[i] as int != 0x20,
    ensures
        without_gaps(s) == s,
    decreases s.len(),
{
    reveal(Seq::filter);
    if s.len() > 0 {
        let front = s.drop_last();
        assert forall|i: int| 0 <= i < front.len() implies (#[trigger] front[i]) as int != 0x2E
            && front[i] as int != 0x20 by {
            assert(front[i] == s[i]);
        }
        law_names_without_gaps_are_whole(front);
        assert(s[s.len() - 1] as int != 0x2E && s[s.len() - 1] as int != 0x20);
        assert(without_gaps(s) =~= s);
    }
}

/// Is a long name made of `stem`, a dot and `extension`, where that is the last dot
/// and not the first character; or is there no such dot, and it is made of `stem`
/// alone?
pub open spec fn is_parted(s: Seq<char>, stem: Seq<char>, extension: Seq<char>) -> bool {
    ||| {
        &&& stem.len() > 0
        &&& s == stem + seq!['.'] + extension
        &&& forall|i: int| 0 <= i < extension.len() ==> #[trigger] extension[i] != '.'
    }
    ||| {
        &&& extension.len() == 0
        &&& s == stem
        &&& forall|i: int| 0 < i < s.len() ==> #[trigger] s[i] != '.'
    }
}

/// The parts that a name is taken to have are those that it has.
proof fn lemma_parted(s: Seq<char>, stem: Seq<char>, extension: Seq<char>)
    requires
        is_parted(s, stem, extension),
    ensures
        stem_part(s) == stem,
        extension_part(s) == extension,
{
    law_basis_fits_short_names(s);
    lemma_dot_is_last(s);
    if s == stem + seq!['.'] + extension && stem.len() > 0 && (forall|i: int|
        0 <= i < extension.len() ==> #[trigger] extension[i] != '.') {
        let d = stem.len() as int;
        assert(s[d] == '.');
        assert forall|i: int| d < i < s.len() implies #[trigger] s[i] != '.' by {
            assert(s[i] == extension[i - d - 1]);
        }
        if last_dot(s) < d {
            assert(s[d] != '.');
        }
        if last_dot(s) > d {
            assert(s[last_dot(s)] == '.');
        }
        assert(s.take(d) =~= stem);
        assert(s.skip(d + 1) =~= extension);
    } else {
        if last_dot(s) > 0 {
            assert(s[last_dot(s)] != '.');
        }
        assert(extension =~= Seq::empty());
    }
}

/// The last dot is a dot, and there is none behind it.
proof fn lemma_dot_is_last(s: Seq<char>)
    ensures
        -1 <= last_dot(s) < s.len(),
        last_dot(s) >= 0 ==> s[last_dot(s)] == '.',
        forall|i: int| last_dot(s) < i < s.len() ==> #[trigger] s[i] != '.',
    decreases s.len(),
{
    if s.len() > 0 {
        let front = s.drop_last();
        lemma_dot_is_last(front);
        assert forall|i: int| last_dot(s) < i < s.len() implies #[trigger] s[i] != '.' by {
            if i < front.len() {
                assert(front[i] == s[i]);
            }
        }
    }
}

/// An alias is recognisable: its stem begins with what the long name begins with, and
/// its extension with what stands behind the last dot, each character given its
/// byte. Where nothing is left in front of that dot but dots and spaces, the stem is
/// an underscore.
pub proof fn law_alias_is_recognisable(
    long_name: Seq<char>,
    stem: Seq<char>,
    extension: Seq<char>,
    i: int,
)
    requires
        is_parted(long_name, stem, extension),
    ensures
        ({
            let shown = without_gaps(stem);
            let base = basis_stem(long_name);
            &&& shown.len() == 0 ==> base == seq![0x5Fu8]
            &&& 0 < shown.len() <= 8 ==> base.len() == shown.len()
            &&& shown.len() > 8 ==> base.len() == 8
            &&& 0 <= i < shown.len() && i < 8 ==> base[i] == short_byte(shown[i])
        }),
        ({
            let shown = without_gaps(extension);
            let ext = basis_extension(long_name);
            &&& shown.len() <= 3 ==> ext.len() == shown.len()
            &&& shown.len() > 3 ==> ext.len() == 3
            &&& 0 <= i < shown.len() && i < 3 ==> ext[i] == short_byte(shown[i])
        }),
{
    lemma_parted(long_name, stem, extension);
    law_characters_keep_their_bytes(stem, i);
    law_characters_keep_their_bytes(extension, i);
}

/// The first four aliases of a long name are readable: up to six bytes of its stem, a
/// tilde and a digit from one to four, and its extension, filled up with spaces.
pub proof fn law_first_aliases_are_numbered(long_name: Seq<char>, i: nat, k: int)
    requires
        i < 4,
        0 <= k < 11,
    ensures
        ({
            let base = basis_stem(long_name);
            let ext = basis_extension(long_name);
            let kept: int = if base.len() < 6 {
                base.len() as int
            } else {
                6
            };
            &&& candidate_name(long_name, i).len() == 11
            &&& candidate_name(long_name, i)[k] == if k < kept {
                base[k] as int
            } else if k == kept {
                0x7E
            } else if k == kept + 1 {
                0x31 + i as int
            } else if k >= 8 && k - 8 < ext.len() {
                ext[k - 8] as int
            } else {
                0x20
            }
        }),
{
    law_basis_fits_short_names(long_name);
    let base = basis_stem(long_name);
    let tail = ascii_bytes(seq!['~'] + decimal((i + 1) as nat));
    assert(decimal((i + 1) as nat) =~= seq![digit(i as int + 1)]);
    assert(tail =~= seq![0x7Eu8, (0x31 + i) as u8]);
    let kept = at_most(base, 6);
    assert(kept + tail =~= numbered_stem(base, (i + 1) as nat));
    assert(candidate_stem(long_name, i) == kept + tail);
}

/// The value of a hexadecimal digit.
pub open spec fn hex_byte(d: int) -> int {
    if d < 10 {
        0x30 + d
    } else {
        0x41 + d - 10
    }
}

/// The aliases behind the first four have two bytes of the stem, four hexadecimal
/// digits, a tilde and a one. The digits are those of the digest of the long name,
/// and then of the numbers that follow it.
pub proof fn law_further_aliases_are_hashed(long_name: Seq<char>, i: nat, k: int)
    requires
        4 <= i,
        0 <= k < 11,
    ensures
        ({
            let base = basis_stem(long_name);
            let ext = basis_extension(long_name);
            let n: int = (digest_of(encode_utf8(long_name)) + (i - 4)) % 0x1_0000;
            let kept: int = if base.len() < 2 {
                base.len() as int
            } else {
                2
            };
            &&& candidate_name(long_name, i).len() == 11
            &&& candidate_name(long_name, i)[k] == if k < kept {
                base[k] as int
            } else if k == kept {
                hex_byte(n / 0x1000)
            } else if k == kept + 1 {
                hex_byte(n / 0x100 % 16)
            } else if k == kept + 2 {
                hex_byte(n / 0x10 % 16)
            } else if k == kept + 3 {
                hex_byte(n % 16)
            } else if k == kept + 4 {
                0x7E
            } else if k == kept + 5 {
                0x31
            } else if k >= 8 && k - 8 < ext.len() {
                ext[k - 8] as int
            } else {
                0x20
            }
        }),
{
    law_basis_fits_short_names(long_name);
    let base = basis_stem(long_name);
    let n = ((digest_of(encode_utf8(long_name)) + (i - 4)) % 65536) as u16;
    let text = hexadecimal(n) + seq!['~', '1'];
    let tail = ascii_bytes(text);
    assert(tail.len() == 6);
    assert(tail[0] == hex_byte(n as int / 0x1000));
    assert(tail[1] == hex_byte(n as int / 0x100 % 16));
    assert(tail[2] == hex_byte(n as int / 0x10 % 16));
    assert(tail[3] == hex_byte(n as int % 16));
    assert(tail[4] == 0x7E);
    assert(tail[5] == 0x31);
    let kept = at_most(base, 2);
    assert(kept + tail =~= hashed_stem(base, n));
    assert(candidate_stem(long_name, i) == kept + tail);
}

/// None of the readable aliases is tried twice, and none of the others is.
pub proof fn law_no_alias_is_tried_twice(long_name: Seq<char>, i: nat, j: nat)
    requires
        i < j < alias_count(),
        i < 4 <==> j < 4,
    ensures
        candidate_name(long_name, i) != candidate_name(long_name, j),
{
    law_basis_fits_short_names(long_name);
    let base = basis_stem(long_name);
    if i < 4 {
        let kept: int = if base.len() < 6 {
            base.len() as int
        } else {
            6
        };
        law_first_aliases_are_numbered(long_name, i, kept + 1);
        law_first_aliases_are_numbered(long_name, j, kept + 1);
    } else {
        let kept: int = if base.len() < 2 {
            base.len() as int
        } else {
            2
        };
        let d = digest_of(encode_utf8(long_name)) as int;
        let m = (d + (i - 4)) % 0x1_0000;
        let n = (d + (j - 4)) % 0x1_0000;
        assert(m != n);
        if candidate_name(long_name, i) == candidate_name(long_name, j) {
            law_further_aliases_are_hashed(long_name, i, kept);
            law_further_aliases_are_hashed(long_name, j, kept);
            law_further_aliases_are_hashed(long_name, i, kept + 1);
            law_further_aliases_are_hashed(long_name, j, kept + 1);
            law_further_aliases_are_hashed(long_name, i, kept + 2);
            law_further_aliases_are_hashed(long_name, j, kept + 2);
            law_further_aliases_are_hashed(long_name, i, kept + 3);
            law_further_aliases_are_hashed(long_name, j, kept + 3);
            lemma_hex_bytes_differ(m / 0x1000, n / 0x1000);
            lemma_hex_bytes_differ(m / 0x100 % 16, n / 0x100 % 16);
            lemma_hex_bytes_differ(m / 0x10 % 16, n / 0x10 % 16);
            lemma_hex_bytes_differ(m % 16, n % 16);
            lemma_hex_digits(m);
            lemma_hex_digits(n);
        }
    }
}

/// Different digits are written differently.
proof fn lemma_hex_bytes_differ(d: int, e: int)
    requires
        0 <= d < 16,
        0 <= e < 16,
    ensures
        hex_byte(d) == hex_byte(e) ==> d == e,
{
}

/// A number of 16 bits is made of four digits.
proof fn lemma_hex_digits(n: int)
    requires
        0 <= n < 0x1_0000,
    ensures
        n == n / 0x1000 * 0x1000 + n / 0x100 % 16 * 0x100 + n / 0x10 % 16 * 0x10 + n % 16,
{
    assert(n / 0x1000 == n / 0x100 / 16);
    assert(n / 0x100 == n / 0x10 / 16);
}

/// The digest of a name: each byte is mixed into what the bytes before it came to,
/// turned left by five bits.
pub proof fn law_digest_turns_and_mixes(bytes: Seq<u8>, b: u8)
    ensures
        digest_of(Seq::empty()) == 0x1505,
        digest_of(bytes.push(b)) == ((digest_of(bytes) << 5) | (digest_of(bytes) >> 11)) ^ (
        b as u16),
{
    let d = digest_of(bytes);
    assert(bytes.push(b).drop_last() =~= bytes);
    assert((d % 2048 * 32 + d / 2048) as u16 == (d << 5) | (d >> 11)) by (bit_vector);
}

/// Does the search for a name come to this end of the directory?
pub open spec fn ends_with(answer: Option<(bool, Link)>, link: Link) -> bool {
    answer is Some && (answer->0).1 == link
}

/// The alias that is found is the first one that is not taken; and none is found only
/// where all of them, 4 that are readable and 65536 others, are taken.
pub proof fn law_first_free_alias_is_found(
    volume: FatVolume,
    disk: Disk,
    dir: ClusterId,
    long_name: Seq<char>,
    i: nat,
    k: nat,
)
    requires
        i <= k < 65540,
    ensures
        match volume.alias_search(disk, dir, long_name, i) {
            Some(AliasOutcome::Free(free)) => {
                let tried = volume.name_taken(disk, dir, candidate(long_name, k));
                let given = volume.name_taken(disk, dir, candidate(long_name, free));
                &&& i <= free < 65540
                &&& k < free ==> tried is Some && (tried->0).0
                &&& given is Some && !(given->0).0
            },
            Some(AliasOutcome::Exhausted) => {
                let tried = volume.name_taken(disk, dir, candidate(long_name, k));
                tried is Some && (tried->0).0
            },
            Some(AliasOutcome::Broken(link)) => (link is Bad || link is Free) && exists|j: nat|
                i <= j < 65540 && ends_with(
                    #[trigger] volume.name_taken(disk, dir, candidate(long_name, j)),
                    link,
                ),
            None => exists|j: nat|
                i <= j < 65540 && #[trigger] volume.name_taken(
                    disk,
                    dir,
                    candidate(long_name, j),
                ) is None,
        },
    decreases 65540 - i,
{
    if i < 65539 {
        if k > i {
            law_first_free_alias_is_found(volume, disk, dir, long_name, i + 1, k);
        } else {
            law_first_free_alias_is_found(volume, disk, dir, long_name, i + 1, i + 1);
        }
    } else {
        assert(volume.alias_search(disk, dir, long_name, 65540) == Some(AliasOutcome::Exhausted));
    }
}

} // verus!
