//! Key extraction: picking the key column out of a line and turning the
//! parsed number into an integer that orders as the number does.

use vstd::prelude::*;
use crate::text::{pieces, split_pieces};

verus! {

/// Why a line yields no key.
#[derive(Clone, Copy, Debug, PartialEq, Eq, Structural)]
pub enum KeyError {
    /// The line has no token at the key column.
    MissingColumn,
    /// The token at the key column is not a number (or is NaN).
    InvalidNumber,
}

/// The tokens of a line, split at every single space: consecutive spaces
/// give empty tokens, and an empty line has one empty token.
pub open spec fn fields(s: Seq<char>) -> Seq<Seq<char>> {
    pieces(s, ' ')
}

/// Bit patterns of an IEEE single whose exponent is all ones and whose
/// fraction is not zero.
pub open spec fn is_nan_bits(bits: u32) -> bool {
    bits % 0x8000_0000 > 0x7f80_0000
}

/// The integer that stands for a non-NaN single in the key order: the
/// magnitude bits, negated for a negative sign, shifted by 2^31. Both zeros
/// get the same value.
pub open spec fn key_rank(bits: u32) -> int {
    if bits >= 0x8000_0000 {
        0x8000_0000 - (bits % 0x8000_0000)
    } else {
        0x8000_0000 + bits
    }
}

/// What the key extractor makes of the outcome of parsing the key token.
pub open spec fn key_result(parsed: Option<u32>) -> Result<u32, KeyError> {
    match parsed {
        None => Err(KeyError::InvalidNumber),
        Some(bits) => if is_nan_bits(bits) {
            Err(KeyError::InvalidNumber)
        } else {
            Ok(key_rank(bits) as u32)
        },
    }
}

/// Classifies the outcome of parsing a key token (the bit pattern of the
/// single, or `None` when the token is no number) and maps a number to its
/// ordered key.
pub fn key_of_bits(parsed: Option<u32>) -> (r: Result<u32, KeyError>)
    ensures
        r == key_result(parsed),
        r is Ok ==> r->Ok_0 as int == key_rank(parsed->Some_0),
{
    match parsed {
        None => Err(KeyError::InvalidNumber),
        Some(bits) => {
            let mag = bits % 0x8000_0000;
            if mag > 0x7f80_0000 {
                Err(KeyError::InvalidNumber)
            } else if bits >= 0x8000_0000 {
                Ok(0x8000_0000 - mag)
            } else {
                Ok(0x8000_0000 + mag)
            }
        },
    }
}

/// The token at zero-based position `a` of `s`, split at single spaces, or
/// `MissingColumn` when the line has too few tokens.
pub fn column_token(s: &str, a: usize) -> (r: Result<String, KeyError>)
    ensures
        a >= fields(s@).len() <==> r == Err::<String, KeyError>(KeyError::MissingColumn),
        a < fields(s@).len() ==> r is Ok && r->Ok_0@ == fields(s@)[a as int],
{
    let tokens = split_pieces(s, ' ');
    if a < tokens.len() {
        Ok(tokens[a].clone())
    } else {
        Err(KeyError::MissingColumn)
    }
}

/// `r` is a possible outcome of extracting the key of `line` at column `a`:
/// `MissingColumn` when the line has too few tokens, else what `key_result`
/// makes of one outcome of `parse` on the token.
pub open spec fn key_outcome<F: Fn(String) -> Option<u32>>(
    parse: F,
    line: Seq<char>,
    a: int,
    r: Result<u32, KeyError>,
) -> bool {
    if a >= fields(line).len() {
        r == Err::<u32, KeyError>(KeyError::MissingColumn)
    } else {
        exists|t: String, p: Option<u32>|
            t@ == fields(line)[a] && parse.ensures((t,), p) && r == key_result(p)
    }
}

/// Extracts the key of a line: the token at column `a`, parsed by `parse`
/// (which hands back the bit pattern of the parsed single, or `None`), then
/// mapped to its ordered key.
pub fn take_position<F: Fn(String) -> Option<u32>>(s: &str, a: usize, parse: &F) -> (r: Result<
    u32,
    KeyError,
>)
    requires
        forall|t: String| parse.requires((t,)),
    ensures
        key_outcome(*parse, s@, a as int, r),
{
    match column_token(s, a) {
        Err(e) => Err(e),
        Ok(tok) => {
            let ghost t = tok;
            let p = parse(tok);
            key_of_bits(p)
        },
    }
}

} // verus!
