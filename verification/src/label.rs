//! The label of a volume.

use crate::name::{is_reserved, reserved_in_short_names, FilenameError, ShortFileName};
use vstd::prelude::*;

verus! {

/// An MS-DOS 11 character volume label.
///
/// ISO-8859-1 encoding is assumed. Trailing spaces are trimmed. Reserved
/// characters are not allowed. There is no file extension, unlike with a
/// filename.
///
/// Volume labels can be found in the BIOS Parameter Block, and in a root
/// directory entry with the 'Volume Label' bit set. Both places should have the
/// same contents, but they can get out of sync.
///
/// MS-DOS FDISK would show you the one in the BPB, but DIR would show you the
/// one in the root directory.
#[derive(Clone, Copy, PartialEq, Eq)]
pub struct VolumeName {
    /// The eleven bytes, padded with spaces.
    pub contents: [u8; 11],
}

/// Is `b` an ASCII whitespace character: a space, a tab, a line feed, a form
/// feed or a carriage return?
pub open spec fn is_white(b: u8) -> bool {
    b == 32 || b == 9 || b == 10 || b == 12 || b == 13
}

/// `bytes` without the whitespace at its end.
pub open spec fn trim_white(bytes: Seq<u8>) -> Seq<u8>
    decreases bytes.len(),
{
    if bytes.len() > 0 && is_white(bytes.last()) {
        trim_white(bytes.drop_last())
    } else {
        bytes
    }
}

/// Is `c` a character that a label can hold?
pub open spec fn label_char(c: char) -> bool {
    !reserved_in_short_names(c) && c != '.' && c as u32 <= 0xFF
}

/// The eleven bytes of the label that `s` spells: its characters, and spaces
/// behind them.
pub open spec fn label_bytes(s: Seq<char>) -> Seq<u8> {
    Seq::new(
        11,
        |i: int|
            if i < s.len() {
                s[i] as u8
            } else {
                32
            },
    )
}

/// What is wrong with `s` as a label. A character behind the twelfth is not
/// looked at.
pub open spec fn label_error(s: Seq<char>) -> Option<FilenameError> {
    if exists|i: int| 0 <= i < s.len() && i <= 11 && !label_char(#[trigger] s[i]) {
        Some(FilenameError::InvalidCharacter)
    } else if s.len() > 11 {
        Some(FilenameError::NameTooLong)
    } else if s.len() == 0 {
        Some(FilenameError::FilenameEmpty)
    } else {
        None
    }
}

/// The characters of ISO-8859-1 bytes.
pub open spec fn latin1(bytes: Seq<u8>) -> Seq<char> {
    Seq::new(bytes.len(), |i: int| bytes[i] as char)
}

/// `s`, filled up with `fill` to `width` characters.
pub open spec fn filled(s: Seq<char>, width: Option<usize>, fill: char) -> Seq<char> {
    match width {
        Some(w) if w > s.len() => s + Seq::new((w - s.len()) as nat, |i: int| fill),
        _ => s,
    }
}

impl VolumeName {
    /// How many bytes a label takes.
    pub const TOTAL_LEN: usize = 11;

    /// Get name.
    pub fn name(&self) -> (bytes: &[u8])
        ensures
            bytes@ == trim_white(self.contents@),
    {
        let mut length: usize = Self::TOTAL_LEN;
        assert(self.contents@.take(11) =~= self.contents@);
        while length > 0
            invariant_except_break
                length <= 11,
                trim_white(self.contents@.take(length as int)) == trim_white(self.contents@),
            ensures
                length <= 11,
                self.contents@.take(length as int) == trim_white(self.contents@),
            decreases length,
        {
            let last: u8 = self.contents[length - 1];
            if last == 32 || last == 9 || last == 10 || last == 12 || last == 13 {
                assert(self.contents@.take(length as int).drop_last() =~= self.contents@.take(
                    length - 1,
                ));
                length -= 1;
            } else {
                break;
            }
        }
        let bytes = vstd::slice::slice_subrange(&self.contents, 0, length);
        assert(bytes@ =~= self.contents@.take(length as int));
        bytes
    }

    /// Create a new MS-DOS volume label.
    pub fn create_from_str(name: &str) -> (result: Result<VolumeName, FilenameError>)
        ensures
            match label_error(name@) {
                Some(error) => result == Err::<VolumeName, FilenameError>(error),
                None => result matches Ok(label) && label.contents@ == label_bytes(name@),
            },
    {
        let mut sfn = VolumeName { contents: [32u8; 11] };
        let mut idx: usize = 0;
        assert(sfn.contents@ =~= label_bytes(name@.take(0)));
        for ch in it: name.chars()
            invariant
                it.seq() == name@,
                idx == it.index(),
                idx <= 11,
                forall|i: int| 0 <= i < idx ==> label_char(#[trigger] name@[i]),
                sfn.contents@ == label_bytes(name@.take(idx as int)),
        {
            assert(name@[it.index()] == ch);
            // Microsoft say these are the invalid characters, and we only handle
            // ISO-8859-1, which is Unicode Code Points U+0000 to U+00FF
            if is_reserved(ch) || ch == '.' || ch as u32 > 0xFF {
                return Err(FilenameError::InvalidCharacter);
            }
            if idx >= Self::TOTAL_LEN {
                return Err(FilenameError::NameTooLong);
            }
            sfn.contents[idx] = ch as u8;
            idx += 1;
            assert(sfn.contents@ =~= label_bytes(name@.take(idx as int)));
        }
        assert(name@.take(name@.len() as int) =~= name@);
        if idx == 0 {
            return Err(FilenameError::FilenameEmpty);
        }
        Ok(sfn)
    }

    /// Convert to a Short File Name.
    ///
    /// Volume Labels can contain things that Short File Names cannot, so only
    /// do this conversion if you are creating the name of a directory entry
    /// with the 'Volume Label' attribute.
    pub fn to_short_filename(self) -> (name: ShortFileName)
        ensures
            name.contents@ == self.contents@,
    {
        ShortFileName { contents: self.contents }
    }

    /// The name as text, filled up to `width` characters.
    pub fn to_text(&self, width: Option<usize>, fill: char) -> (text: String)
        ensures
            text@ == filled(latin1(trim_white(self.contents@)), width, fill),
    {
        let bytes = self.name();
        let mut text = String::new();
        let mut i: usize = 0;
        assert(text@ =~= latin1(bytes@.take(0)));
        while i < bytes.len()
            invariant
                i <= bytes@.len(),
                text@ == latin1(bytes@.take(i as int)),
            decreases bytes@.len() - i,
        {
            // converting a byte to a codepoint means you are assuming
            // ISO-8859-1 encoding, because that's how Unicode was designed.
            text.push(bytes[i] as char);
            i += 1;
            assert(text@ =~= latin1(bytes@.take(i as int)));
        }
        assert(bytes@.take(i as int) =~= bytes@);
        let ghost printed = text@;
        if let Some(width) = width {
            assert(text@ =~= printed + Seq::new(0, |k: int| fill));
            while i < width
                invariant
                    printed.len() == bytes@.len(),
                    bytes@.len() <= i,
                    i <= width || i == bytes@.len(),
                    text@ == printed + Seq::new((i - printed.len()) as nat, |k: int| fill),
                decreases width - i,
            {
                text.push(fill);
                i += 1;
                assert(text@ =~= printed + Seq::new((i - printed.len()) as nat, |k: int| fill));
            }
        }
        text
    }

    /// The name as text for a programmer: in quotes, and with the type's name
    /// around it.
    pub fn to_debug_text(&self) -> (text: String)
        ensures
            text@ == "VolumeName(\""@ + latin1(trim_white(self.contents@)) + "\")"@,
    {
        let mut text = "VolumeName(\"".to_owned();
        text.append(self.to_text(None, ' ').as_str());
        text.append("\")");
        text
    }
}

} // verus!
