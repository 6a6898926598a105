//! Character classification and conversion with typed errors.
use vstd::prelude::*;

verus! {

/// Why a character was refused.
#[derive(Debug, Clone, Copy, PartialEq, Eq, Structural)]
pub enum CharError {
    NotASCII(char),
    NotDigit(char),
    NotBase16(char),
    NotLetter(char),
    NotPrintable(char),
}

/// Whether `c` has Unicode's Alphabetic property.
pub uninterp spec fn alphabetic(c: char) -> bool;

/// Whether `c` has Unicode's White_Space property.
pub uninterp spec fn white_space(c: char) -> bool;

pub open spec fn is_ascii_lower(c: char) -> bool {
    'a' <= c <= 'z'
}

pub open spec fn is_ascii_upper(c: char) -> bool {
    'A' <= c <= 'Z'
}

/// Printable ASCII other than the space: `'!'` to `'~'`.
pub open spec fn is_ascii_graphic(c: char) -> bool {
    '!' <= c <= '~'
}

/// Relies on `char::is_alphabetic`: the Alphabetic property, which among
/// ASCII characters the letters alone have.
#[verifier::external_body]
fn is_alphabetic(c: char) -> (r: bool)
    ensures
        r == alphabetic(c),
        (c as u32) < 128 ==> (r <==> (is_ascii_lower(c) || is_ascii_upper(c))),
{
    c.is_alphabetic()
}

/// Relies on `char::is_whitespace`: the White_Space property, which among
/// ASCII characters tab, line feed, vertical tab, form feed, carriage return
/// and space have.
#[verifier::external_body]
fn is_whitespace(c: char) -> (r: bool)
    ensures
        r == white_space(c),
        (c as u32) < 128 ==> (r <==> (c == ' ' || ('\t' <= c <= '\r'))),
{
    c.is_whitespace()
}

/// `c` with an ASCII lower-case letter turned upper-case.
pub open spec fn ascii_upper(c: char) -> char {
    if is_ascii_lower(c) {
        ((c as u32) - 32) as char
    } else {
        c
    }
}

/// `c` with an ASCII upper-case letter turned lower-case.
pub open spec fn ascii_lower(c: char) -> char {
    if is_ascii_upper(c) {
        ((c as u32) + 32) as char
    } else {
        c
    }
}

fn to_ascii_upper(c: char) -> (r: char)
    ensures
        r == ascii_upper(c),
{
    if 'a' <= c && c <= 'z' {
        ((c as u8) - 32) as char
    } else {
        c
    }
}

fn to_ascii_lower(c: char) -> (r: char)
    ensures
        r == ascii_lower(c),
{
    if 'A' <= c && c <= 'Z' {
        ((c as u8) + 32) as char
    } else {
        c
    }
}

/// The upper-case form of an alphabetic character (only ASCII letters change).
pub fn to_uppercase(x: char) -> (r: Result<char, CharError>)
    ensures
        r == if alphabetic(x) {
            Ok(ascii_upper(x))
        } else {
            Err(CharError::NotLetter(x))
        },
{
    if is_alphabetic(x) {
        Ok(to_ascii_upper(x))
    } else {
        Err(CharError::NotLetter(x))
    }
}

/// The lower-case form of an alphabetic character (only ASCII letters change).
pub fn to_lowercase(x: char) -> (r: Result<char, CharError>)
    ensures
        r == if alphabetic(x) {
            Ok(ascii_lower(x))
        } else {
            Err(CharError::NotLetter(x))
        },
{
    if is_alphabetic(x) {
        Ok(to_ascii_lower(x))
    } else {
        Err(CharError::NotLetter(x))
    }
}

/// The character itself when it can be printed: visible ASCII or white space.
pub fn print_char(x: char) -> (r: Result<char, CharError>)
    ensures
        r == if is_ascii_graphic(x) || white_space(x) {
            Ok(x)
        } else {
            Err(CharError::NotPrintable(x))
        },
{
    if ('!' <= x && x <= '~') || is_whitespace(x) {
        Ok(x)
    } else {
        Err(CharError::NotPrintable(x))
    }
}

/// The value of a decimal digit.
pub fn char_to_number(x: char) -> (r: Result<u8, CharError>)
    ensures
        r == if (x as u32) >= 128 {
            Err(CharError::NotASCII(x))
        } else if '0' <= x <= '9' {
            Ok(((x as u32) - ('0' as u32)) as u8)
        } else {
            Err(CharError::NotDigit(x))
        },
{
    if (x as u32) >= 128 {
        return Err(CharError::NotASCII(x));
    }
    if '0' <= x && x <= '9' {
        Ok((x as u8) - 48)
    } else {
        Err(CharError::NotDigit(x))
    }
}

/// The value of a hexadecimal digit, either case.
pub fn char_to_number_hex(x: char) -> (r: Result<u8, CharError>)
    ensures
        r == if (x as u32) >= 128 {
            Err(CharError::NotASCII(x))
        } else if '0' <= x <= '9' {
            Ok(((x as u32) - ('0' as u32)) as u8)
        } else if 'a' <= x <= 'f' {
            Ok(((x as u32) - ('a' as u32) + 10) as u8)
        } else if 'A' <= x <= 'F' {
            Ok(((x as u32) - ('A' as u32) + 10) as u8)
        } else {
            Err(CharError::NotBase16(x))
        },
{
    if (x as u32) >= 128 {
        return Err(CharError::NotASCII(x));
    }
    if '0' <= x && x <= '9' {
        Ok((x as u8) - 48)
    } else if 'a' <= x && x <= 'f' {
        Ok((x as u8) - 87)
    } else if 'A' <= x && x <= 'F' {
        Ok((x as u8) - 55)
    } else {
        Err(CharError::NotBase16(x))
    }
}

} // verus!
