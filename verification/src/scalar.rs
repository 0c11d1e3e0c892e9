//! Scalars: what the text of a leaf denotes as a boolean, an integer or a
//! character.

use vstd::prelude::*;
use vstd::string::*;
use crate::decimal::{parse_i64, parse_signed, parse_u64, parse_unsigned};
use crate::shape::ScalarKind;
use crate::text::{same_text, to_chars};

verus! {

/// The boolean that `text` denotes: `true` or `false`, spelled exactly so.
pub open spec fn bool_of(text: Seq<char>) -> Option<bool> {
    if text == seq!['t', 'r', 'u', 'e'] {
        Some(true)
    } else if text == seq!['f', 'a', 'l', 's', 'e'] {
        Some(false)
    } else {
        None
    }
}

/// The integer between `min` and `max` that `text` denotes as a signed decimal.
pub open spec fn signed_of(text: Seq<char>, min: int, max: int) -> Option<int> {
    match parse_signed(text) {
        Some(v) if min <= v <= max => Some(v),
        _ => None,
    }
}

/// The number up to `max` that `text` denotes as an unsigned decimal.
pub open spec fn unsigned_of(text: Seq<char>, max: int) -> Option<int> {
    match parse_unsigned(text) {
        Some(v) if v <= max => Some(v as int),
        _ => None,
    }
}

/// The character that `text` denotes: its only one.
pub open spec fn char_of(text: Seq<char>) -> Option<char> {
    if text.len() == 1 {
        Some(text[0])
    } else {
        None
    }
}

/// The integer that `text` denotes as a value of an integer kind.
pub open spec fn integer_of(kind: ScalarKind, text: Seq<char>) -> Option<int> {
    match kind {
        ScalarKind::I8 => signed_of(text, i8::MIN as int, i8::MAX as int),
        ScalarKind::I16 => signed_of(text, i16::MIN as int, i16::MAX as int),
        ScalarKind::I32 => signed_of(text, i32::MIN as int, i32::MAX as int),
        ScalarKind::I64 => signed_of(text, i64::MIN as int, i64::MAX as int),
        ScalarKind::U8 => unsigned_of(text, u8::MAX as int),
        ScalarKind::U16 => unsigned_of(text, u16::MAX as int),
        ScalarKind::U32 => unsigned_of(text, u32::MAX as int),
        ScalarKind::U64 => unsigned_of(text, u64::MAX as int),
        _ => None,
    }
}

/// `text` denotes a value of the given kind.
pub open spec fn denotes(kind: ScalarKind, text: Seq<char>) -> bool {
    match kind {
        ScalarKind::Text => true,
        ScalarKind::Bool => bool_of(text) is Some,
        ScalarKind::Char => char_of(text) is Some,
        _ => integer_of(kind, text) is Some,
    }
}

/// The name of a kind, as failures spell it.
pub open spec fn kind_name(kind: ScalarKind) -> Seq<char> {
    match kind {
        ScalarKind::Text => "str"@,
        ScalarKind::Bool => "bool"@,
        ScalarKind::I8 => "i8"@,
        ScalarKind::I16 => "i16"@,
        ScalarKind::I32 => "i32"@,
        ScalarKind::I64 => "i64"@,
        ScalarKind::U8 => "u8"@,
        ScalarKind::U16 => "u16"@,
        ScalarKind::U32 => "u32"@,
        ScalarKind::U64 => "u64"@,
        ScalarKind::Char => "char"@,
    }
}

/// The name of a kind, as failures spell it.
pub fn name_of(kind: ScalarKind) -> (name: &'static str)
    ensures
        name@ == kind_name(kind),
{
    match kind {
        ScalarKind::Text => "str",
        ScalarKind::Bool => "bool",
        ScalarKind::I8 => "i8",
        ScalarKind::I16 => "i16",
        ScalarKind::I32 => "i32",
        ScalarKind::I64 => "i64",
        ScalarKind::U8 => "u8",
        ScalarKind::U16 => "u16",
        ScalarKind::U32 => "u32",
        ScalarKind::U64 => "u64",
        ScalarKind::Char => "char",
    }
}

/// Reads `text` as a boolean.
pub fn parse_bool(text: &str) -> (value: Option<bool>)
    ensures
        value == bool_of(text@),
{
    let chars = to_chars(text);
    proof {
        reveal_strlit("true");
        reveal_strlit("false");
        assert("true"@ =~= seq!['t', 'r', 'u', 'e']);
        assert("false"@ =~= seq!['f', 'a', 'l', 's', 'e']);
    }
    if same_text(chars.as_slice(), to_chars("true").as_slice()) {
        Some(true)
    } else if same_text(chars.as_slice(), to_chars("false").as_slice()) {
        Some(false)
    } else {
        None
    }
}

/// Reads `text` as a character: it must hold exactly one.
pub fn parse_char(text: &str) -> (value: Option<char>)
    ensures
        value == char_of(text@),
{
    let chars = to_chars(text);
    if chars.len() == 1 {
        Some(chars[0])
    } else {
        None
    }
}

/// Reads `text` as a signed decimal that an `i64` holds.
pub fn parse_i64_text(text: &str) -> (value: Option<i64>)
    ensures
        value == match signed_of(text@, i64::MIN as int, i64::MAX as int) {
            Some(v) => Some(v as i64),
            None => None,
        },
{
    let chars = to_chars(text);
    parse_i64(chars.as_slice(), i64::MAX)
}

/// Reads `text` as a signed decimal that an `i32` holds.
pub fn parse_i32_text(text: &str) -> (value: Option<i32>)
    ensures
        value == match signed_of(text@, i32::MIN as int, i32::MAX as int) {
            Some(v) => Some(v as i32),
            None => None,
        },
{
    let chars = to_chars(text);
    match parse_i64(chars.as_slice(), i32::MAX as i64) {
        Some(v) => Some(v as i32),
        None => None,
    }
}

/// Reads `text` as a signed decimal that an `i16` holds.
pub fn parse_i16_text(text: &str) -> (value: Option<i16>)
    ensures
        value == match signed_of(text@, i16::MIN as int, i16::MAX as int) {
            Some(v) => Some(v as i16),
            None => None,
        },
{
    let chars = to_chars(text);
    match parse_i64(chars.as_slice(), i16::MAX as i64) {
        Some(v) => Some(v as i16),
        None => None,
    }
}

/// Reads `text` as a signed decimal that an `i8` holds.
pub fn parse_i8_text(text: &str) -> (value: Option<i8>)
    ensures
        value == match signed_of(text@, i8::MIN as int, i8::MAX as int) {
            Some(v) => Some(v as i8),
            None => None,
        },
{
    let chars = to_chars(text);
    match parse_i64(chars.as_slice(), i8::MAX as i64) {
        Some(v) => Some(v as i8),
        None => None,
    }
}

/// Reads `text` as an unsigned decimal that a `u64` holds.
pub fn parse_u64_text(text: &str) -> (value: Option<u64>)
    ensures
        value == match unsigned_of(text@, u64::MAX as int) {
            Some(v) => Some(v as u64),
            None => None,
        },
{
    let chars = to_chars(text);
    parse_u64(chars.as_slice(), u64::MAX)
}

/// Reads `text` as an unsigned decimal that a `u32` holds.
pub fn parse_u32_text(text: &str) -> (value: Option<u32>)
    ensures
        value == match unsigned_of(text@, u32::MAX as int) {
            Some(v) => Some(v as u32),
            None => None,
        },
{
    let chars = to_chars(text);
    match parse_u64(chars.as_slice(), u32::MAX as u64) {
        Some(v) => Some(v as u32),
        None => None,
    }
}

/// Reads `text` as an unsigned decimal that a `u16` holds.
pub fn parse_u16_text(text: &str) -> (value: Option<u16>)
    ensures
        value == match unsigned_of(text@, u16::MAX as int) {
            Some(v) => Some(v as u16),
            None => None,
        },
{
    let chars = to_chars(text);
    match parse_u64(chars.as_slice(), u16::MAX as u64) {
        Some(v) => Some(v as u16),
        None => None,
    }
}

/// Reads `text` as an unsigned decimal that a `u8` holds.
pub fn parse_u8_text(text: &str) -> (value: Option<u8>)
    ensures
        value == match unsigned_of(text@, u8::MAX as int) {
            Some(v) => Some(v as u8),
            None => None,
        },
{
    let chars = to_chars(text);
    match parse_u64(chars.as_slice(), u8::MAX as u64) {
        Some(v) => Some(v as u8),
        None => None,
    }
}

/// Whether `text` denotes a value of the given kind.
pub fn is_valid(kind: ScalarKind, text: &str) -> (valid: bool)
    ensures
        valid == denotes(kind, text@),
{
    match kind {
        ScalarKind::Text => true,
        ScalarKind::Bool => parse_bool(text).is_some(),
        ScalarKind::I8 => parse_i8_text(text).is_some(),
        ScalarKind::I16 => parse_i16_text(text).is_some(),
        ScalarKind::I32 => parse_i32_text(text).is_some(),
        ScalarKind::I64 => parse_i64_text(text).is_some(),
        ScalarKind::U8 => parse_u8_text(text).is_some(),
        ScalarKind::U16 => parse_u16_text(text).is_some(),
        ScalarKind::U32 => parse_u32_text(text).is_some(),
        ScalarKind::U64 => parse_u64_text(text).is_some(),
        ScalarKind::Char => parse_char(text).is_some(),
    }
}

} // verus!
