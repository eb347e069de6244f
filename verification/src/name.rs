//! Names of directory entries: the eleven bytes of a short name, and what a
//! long name may be.

use vstd::prelude::*;

verus! {

/// What is wrong with a name.
#[derive(Clone, Copy, Debug, PartialEq, Eq, Structural)]
pub enum FilenameError {
    /// It holds a character that such a name cannot hold.
    InvalidCharacter,
    /// It holds no character at all.
    FilenameEmpty,
    /// It does not fit.
    NameTooLong,
    /// A dot stands where none can.
    MisplacedPeriod,
}

/// A file name of up to eight characters and up to three of extension, in the
/// form in which a directory stores it: upper case, padded with spaces.
#[derive(Clone, Copy, Debug, PartialEq, Eq)]
pub struct ShortFileName {
    /// The eight bytes of the base, and the three of the extension.
    pub contents: [u8; 11],
}

/// Is `c` one of the characters that no short name and no volume label holds?
pub open spec fn reserved_in_short_names(c: char) -> bool {
    ||| c as u32 <= 0x1F
    ||| c == '"' || c == '*' || c == '+' || c == ',' || c == '/' || c == ':' || c == ';'
    ||| c == '<' || c == '=' || c == '>' || c == '?' || c == '[' || c == '\\' || c == ']'
    ||| c == '|'
}

/// `c` in upper case if it is an ASCII letter, else `c`.
pub open spec fn ascii_upper(c: char) -> char {
    if 'a' <= c <= 'z' {
        (c as u32 - 32) as char
    } else {
        c
    }
}

/// A short name that is being read, one character at a time.
pub struct PartialName {
    /// The eleven bytes so far.
    pub contents: Seq<u8>,
    /// Where the next character goes.
    pub next: int,
    /// Has the dot in front of the extension been met?
    pub seen_dot: bool,
}

/// The short name being read after one more character.
pub open spec fn name_step(name: PartialName, c: char) -> Result<PartialName, FilenameError> {
    if reserved_in_short_names(c) || c == ' ' || c as u32 > 0xFF {
        Err(FilenameError::InvalidCharacter)
    } else if c == '.' {
        if 1 <= name.next <= 8 {
            Ok(PartialName { contents: name.contents, next: 8, seen_dot: true })
        } else {
            Err(FilenameError::MisplacedPeriod)
        }
    } else if name.next >= (if name.seen_dot {
        11int
    } else {
        8int
    }) {
        Err(FilenameError::NameTooLong)
    } else {
        Ok(
            PartialName {
                contents: name.contents.update(name.next, ascii_upper(c) as u8),
                next: name.next + 1,
                seen_dot: name.seen_dot,
            },
        )
    }
}

/// The short name being read after all of `s`.
pub open spec fn name_steps(s: Seq<char>) -> Result<PartialName, FilenameError>
    decreases s.len(),
{
    if s.len() == 0 {
        Ok(PartialName { contents: Seq::new(11, |i: int| 32u8), next: 0, seen_dot: false })
    } else {
        match name_steps(s.drop_last()) {
            Ok(name) => name_step(name, s.last()),
            Err(error) => Err(error),
        }
    }
}

/// The eleven bytes of the short name that `s` spells.
pub open spec fn short_name_of(s: Seq<char>) -> Result<Seq<u8>, FilenameError> {
    if s == seq!['.', '.'] {
        Ok(parent_dir_name())
    } else if s.len() == 0 || s == seq!['.'] {
        Ok(this_dir_name())
    } else {
        match name_steps(s) {
            Ok(name) => Ok(name.contents),
            Err(error) => Err(error),
        }
    }
}

/// The name `..`.
pub open spec fn parent_dir_name() -> Seq<u8> {
    Seq::new(11, |i: int| if i < 2 { 46u8 } else { 32u8 })
}

/// The name `.`.
pub open spec fn this_dir_name() -> Seq<u8> {
    Seq::new(11, |i: int| if i < 1 { 46u8 } else { 32u8 })
}

/// `sum` turned right by one bit, plus `b`, modulo 256.
pub open spec fn csum_step(sum: u8, b: u8) -> u8 {
    ((sum / 2 + (sum % 2) * 128 + b) % 256) as u8
}

/// The checksum by which long-name entries refer to a short name.
pub open spec fn csum_of(bytes: Seq<u8>) -> u8
    decreases bytes.len(),
{
    if bytes.len() == 0 {
        0
    } else {
        csum_step(csum_of(bytes.drop_last()), bytes.last())
    }
}

/// Reading a name ends with the error of its first bad character, whatever
/// follows it.
pub proof fn lemma_name_error_stays(s: Seq<char>, n: int)
    requires
        0 <= n <= s.len(),
        name_steps(s.take(n)) is Err,
    ensures
        name_steps(s) == name_steps(s.take(n)),
    decreases s.len() - n,
{
    if n < s.len() {
        assert(s.take(n + 1).drop_last() =~= s.take(n));
        lemma_name_error_stays(s, n + 1);
    } else {
        assert(s.take(n) =~= s);
    }
}

/// While a name is read, the place of the next character is inside it.
pub proof fn lemma_name_steps_bound(s: Seq<char>)
    ensures
        name_steps(s) matches Ok(name) ==> name.contents.len() == 11 && 0 <= name.next <= 11,
        name_steps(s) matches Ok(name) ==> !name.seen_dot ==> name.next <= 8,
        name_steps(s) matches Ok(name) ==> name.seen_dot ==> name.next >= 8,
        name_steps(s) matches Ok(name) ==> s.len() > 0 ==> name.next > 0,
    decreases s.len(),
{
    if s.len() > 0 {
        lemma_name_steps_bound(s.drop_last());
    }
}

/// Is `c` one of the characters that no short name and no volume label holds?
pub(crate) fn is_reserved(c: char) -> (reserved: bool)
    ensures
        reserved == reserved_in_short_names(c),
{
    c as u32 <= 0x1F || c == '"' || c == '*' || c == '+' || c == ',' || c == '/' || c == ':' || c
        == ';' || c == '<' || c == '=' || c == '>' || c == '?' || c == '[' || c == '\\' || c == ']'
        || c == '|'
}

/// The byte of `c` in upper case.
pub(crate) fn upper_byte(c: char) -> (byte: u8)
    requires
        c as u32 <= 0xFF,
    ensures
        byte == ascii_upper(c) as u8,
{
    let byte: u8 = c as u8;
    if 97 <= byte && byte <= 122 {
        byte - 32
    } else {
        byte
    }
}

impl ShortFileName {
    /// Get a short file name containing "..", which means "parent directory".
    pub fn parent_dir() -> (name: ShortFileName)
        ensures
            name.contents@ == parent_dir_name(),
    {
        ShortFileName { contents: [46, 46, 32, 32, 32, 32, 32, 32, 32, 32, 32] }
    }

    /// Get a short file name containing ".", which means "this directory".
    pub fn this_dir() -> (name: ShortFileName)
        ensures
            name.contents@ == this_dir_name(),
    {
        ShortFileName { contents: [46, 32, 32, 32, 32, 32, 32, 32, 32, 32, 32] }
    }

    /// Create a new short file name: `..`, `.` (or nothing), or a base of up to
    /// eight characters and, behind a dot, up to three of extension.
    pub fn create_from_str(name: &str) -> (result: Result<ShortFileName, FilenameError>)
        ensures
            match short_name_of(name@) {
                Ok(bytes) => result matches Ok(name) && name.contents@ == bytes,
                Err(error) => result == Err::<ShortFileName, FilenameError>(error),
            },
    {
        let length: usize = name.unicode_len();
        if length == 2 && name.get_char(0) == '.' && name.get_char(1) == '.' {
            assert(name@ =~= seq!['.', '.']);
            return Ok(ShortFileName::parent_dir());
        }
        if length == 0 || (length == 1 && name.get_char(0) == '.') {
            assert(name@.len() > 0 ==> name@ =~= seq!['.']);
            return Ok(ShortFileName::this_dir());
        }
        let mut sfn = ShortFileName { contents: [32u8; 11] };
        let mut idx: usize = 0;
        let mut seen_dot = false;
        assert(sfn.contents@ =~= Seq::new(11, |i: int| 32u8));
        assert(name@.take(0) =~= Seq::<char>::empty());
        for ch in it: name.chars()
            invariant
                it.seq() == name@,
                name@.len() > 0,
                name@ != seq!['.', '.'],
                name@ != seq!['.'],
                name_steps(name@.take(it.index())) == Ok::<PartialName, FilenameError>(
                    (PartialName { contents: sfn.contents@, next: idx as int, seen_dot }),
                ),
        {
            let ghost read = name@.take(it.index() + 1);
            proof {
                assert(read.drop_last() =~= name@.take(it.index()));
                lemma_name_steps_bound(read.drop_last());
                if name_steps(read) is Err {
                    lemma_name_error_stays(name@, it.index() + 1);
                }
            }
            if is_reserved(ch) || ch == ' ' || ch as u32 > 0xFF {
                return Err(FilenameError::InvalidCharacter);
            }
            if ch == '.' {
                if idx >= 1 && idx <= 8 {
                    idx = 8;
                    seen_dot = true;
                } else {
                    return Err(FilenameError::MisplacedPeriod);
                }
            } else {
                let limit: usize = if seen_dot {
                    11
                } else {
                    8
                };
                if idx >= limit {
                    return Err(FilenameError::NameTooLong);
                }
                sfn.contents[idx] = upper_byte(ch);
                idx += 1;
            }
        }
        assert(name@.take(name@.len() as int) =~= name@);
        proof {
            lemma_name_steps_bound(name@);
        }
        if idx == 0 {
            return Err(FilenameError::FilenameEmpty);
        }
        Ok(sfn)
    }

    /// Is this the name `other`?
    pub fn is_same(&self, other: &ShortFileName) -> (same: bool)
        ensures
            same == (self.contents@ == other.contents@),
    {
        let mut i: usize = 0;
        while i < 11
            invariant
                i <= 11,
                forall|k: int| 0 <= k < i ==> self.contents@[k] == other.contents@[k],
            decreases 11 - i,
        {
            if self.contents[i] != other.contents[i] {
                return false;
            }
            i += 1;
        }
        assert(self.contents@ =~= other.contents@);
        true
    }

    /// The checksum that long-name entries hold to say which short entry they
    /// belong to.
    pub fn csum(&self) -> (sum: u8)
        ensures
            sum == csum_of(self.contents@),
    {
        let mut sum: u8 = 0;
        let mut i: usize = 0;
        while i < 11
            invariant
                i <= 11,
                sum == csum_of(self.contents@.take(i as int)),
            decreases 11 - i,
        {
            assert(self.contents@.take(i + 1).drop_last() =~= self.contents@.take(i as int));
            sum = (sum / 2 + (sum % 2) * 128).wrapping_add(self.contents[i]);
            i += 1;
        }
        assert(self.contents@.take(11) =~= self.contents@);
        sum
    }
}

} // verus!
