//! Reading the settings of delimited text.

use crate::error::{CliResult, Error};
use vstd::prelude::*;
use vstd::string::*;

verus! {

/// The byte of the tab character.
pub const TAB: u8 = 9;

/// The delimiter that a text names: a tab for a backslash followed by `t`, and
/// for a single ASCII character that character. Any other text names none.
pub open spec fn delimiter_of(text: Seq<char>) -> Result<u8, Error> {
    if text == seq!['\\', 't'] {
        Ok(TAB)
    } else if text.len() == 1 && (text[0] as u32) < 128 {
        Ok(text[0] as u8)
    } else {
        Err(Error::MalformedDelimiter)
    }
}

/// Reads a delimiter from its name.
pub fn parse_into_delimiter(text: &str) -> (delimiter: CliResult<u8>)
    ensures
        delimiter == delimiter_of(text@),
{
    let length = text.unicode_len();
    if length == 2 {
        if text.get_char(0) == '\\' && text.get_char(1) == 't' {
            assert(text@ =~= seq!['\\', 't']);
            return Ok(TAB);
        }
    }
    if length == 1 {
        let character = text.get_char(0);
        if (character as u32) < 128 {
            return Ok(character as u8);
        }
    }
    Err(Error::MalformedDelimiter)
}

/// The texts, each but the first after a delimiter.
pub open spec fn joined(texts: Seq<Seq<char>>, delimiter: Seq<char>) -> Seq<char>
    decreases texts.len(),
{
    if texts.len() == 0 {
        Seq::empty()
    } else if texts.len() == 1 {
        texts[0]
    } else {
        joined(texts.drop_last(), delimiter) + delimiter + texts.last()
    }
}

/// A letter in lower case where it is an ASCII capital; any other character as
/// it is.
pub open spec fn lowered(character: char) -> char {
    if 'A' <= character && character <= 'Z' {
        ((character as u8) + 32) as char
    } else {
        character
    }
}

/// A text with its ASCII capitals in lower case.
pub open spec fn ascii_lowercase(text: Seq<char>) -> Seq<char> {
    text.map_values(|character: char| lowered(character))
}

/// The offset from UTC, as `%z` writes it, of a time zone given by name: `utc`
/// or `ny`, in any mix of upper and lower case. Other names have none.
pub open spec fn zone_offset(name: Seq<char>) -> Option<Seq<char>> {
    if ascii_lowercase(name) == seq!['u', 't', 'c'] {
        Some(seq!['+', '0', '0', '0', '0'])
    } else if ascii_lowercase(name) == seq!['n', 'y'] {
        Some(seq!['-', '0', '5', '0', '0'])
    } else {
        None
    }
}

fn is_letter(character: char, lower: char, upper: char) -> (same: bool)
    requires
        'A' <= upper && upper <= 'Z',
        lowered(upper) == lower,
    ensures
        same == (lowered(character) == lower),
{
    character == lower || character == upper
}

/// The offset from UTC of a time zone given by name, where the name is known.
pub fn offset_of_zone(name: &str) -> (offset: Option<&'static str>)
    ensures
        match offset {
            Some(offset) => zone_offset(name@) == Some(offset@),
            None => zone_offset(name@) is None,
        },
{
    let length = name.unicode_len();
    if length == 3 {
        if is_letter(name.get_char(0), 'u', 'U') && is_letter(name.get_char(1), 't', 'T')
            && is_letter(name.get_char(2), 'c', 'C') {
            proof {
                reveal_strlit("+0000");
                assert(ascii_lowercase(name@) =~= seq!['u', 't', 'c']);
                assert("+0000"@ =~= seq!['+', '0', '0', '0', '0']);
            }
            return Some("+0000");
        }
        assert(ascii_lowercase(name@) != seq!['u', 't', 'c']) by {
            if ascii_lowercase(name@) == seq!['u', 't', 'c'] {
                assert(ascii_lowercase(name@)[0] == 'u');
                assert(ascii_lowercase(name@)[1] == 't');
                assert(ascii_lowercase(name@)[2] == 'c');
            }
        }
    }
    if length == 2 {
        if is_letter(name.get_char(0), 'n', 'N') && is_letter(name.get_char(1), 'y', 'Y') {
            proof {
                reveal_strlit("-0500");
                assert(ascii_lowercase(name@) =~= seq!['n', 'y']);
                assert("-0500"@ =~= seq!['-', '0', '5', '0', '0']);
            }
            return Some("-0500");
        }
        assert(ascii_lowercase(name@) != seq!['n', 'y']) by {
            if ascii_lowercase(name@) == seq!['n', 'y'] {
                assert(ascii_lowercase(name@)[0] == 'n');
                assert(ascii_lowercase(name@)[1] == 'y');
            }
        }
    }
    assert(ascii_lowercase(name@).len() == name@.len());
    None
}

} // verus!
