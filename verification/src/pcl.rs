//! Parsing of a PCL printer byte stream into commands.
//!
//! The parser reads one command at a time from a byte slice.  A byte other
//! than ESC is a printable character (or control code) of its own; ESC starts
//! an escape sequence of the small PCL subset understood here.  Every command
//! is reported with the offset of its first byte; offsets are counted in a
//! `u32`, and the parser refuses to read a byte whose offset no longer fits.
use vstd::prelude::*;
use crate::text::{hex_upper, push_hex};

verus! {

/// Why the parser stopped.
#[derive(Debug, Clone, Copy, PartialEq, Eq, Structural)]
pub enum PclParserError {
    /// The input has more bytes than a `u32` offset can count.
    FileTooBig,
    /// An escape sequence that the parser does not know, at the given offset.
    UnknownCommand(u32),
    /// A known escape sequence with a malformed or out-of-range parameter, at the given offset.
    InvalidCommand(u32),
}

/// The message of an error, as the command line tool prints it.
pub open spec fn parser_error_message(e: PclParserError) -> Seq<char> {
    match e {
        PclParserError::FileTooBig => "Too big file"@,
        PclParserError::UnknownCommand(x) => "Unknown command at "@ + hex_upper(x as nat) + "h"@,
        PclParserError::InvalidCommand(x) => "Invalid command at "@ + hex_upper(x as nat) + "h"@,
    }
}

impl PclParserError {
    /// The message of the error: offsets in upper-case hexadecimal followed by `h`.
    pub fn to_string(&self) -> (s: String)
        ensures
            s@ == parser_error_message(*self),
    {
        match self {
            PclParserError::FileTooBig => String::from_str("Too big file"),
            PclParserError::UnknownCommand(x) => {
                let mut s = String::from_str("Unknown command at ");
                push_hex(&mut s, *x);
                s.append("h");
                s
            },
            PclParserError::InvalidCommand(x) => {
                let mut s = String::from_str("Invalid command at ");
                push_hex(&mut s, *x);
                s.append("h");
                s
            },
        }
    }
}

/// A cursor coordinate: written without a sign it is absolute, with `+` or `-` it is relative.
#[derive(Debug, Clone, Copy, PartialEq, Eq, Structural)]
pub enum Position {
    /// A bare decimal number, at most `u16::MAX`.
    Absolute(u16),
    /// A number behind `+` or `-`, of magnitude at most `i16::MAX`.
    Relative(i16),
}

/// One command of the stream.
#[derive(Debug, Clone, Copy, PartialEq, Eq, Structural)]
pub enum PclCommand {
    Char(u8),
    LineTermination(u8),
    EndOfLineWrap(u8),
    HorizontalMotionIndex(u16),
    VerticalMotionIndex(u16),
    ClearHorizontalMargins,
    RasterGraphicsPresentationMode(u8),
    SecondarySymbolSet(u16, u8),
    VerticalCursorPositioning(Position),
    HorizontalCursorPositioning(Position),
    EnableUnderline,
    DisableUnderline,
}

impl PclCommand {
    /// The parameter ranges that the parser admits for each command.
    pub open spec fn well_formed(self) -> bool {
        match self {
            PclCommand::Char(c) => c != 0x1b,
            PclCommand::LineTermination(n) => n <= 3,
            PclCommand::EndOfLineWrap(n) => n <= 1,
            PclCommand::RasterGraphicsPresentationMode(n) => n == 0 || n == 3,
            PclCommand::SecondarySymbolSet(_, c) => 64 <= c < 96,
            _ => true,
        }
    }
}

/// The escape byte that starts every escape sequence.
pub const ESC: u8 = 0x1b;

/// The offset reported for a command that starts after `pos` bytes of input:
/// the byte count, held at `u32::MAX` once it no longer fits.
pub open spec fn offset_at(pos: nat) -> u32 {
    if pos < u32::MAX {
        pos as u32
    } else {
        u32::MAX
    }
}

pub open spec fn is_digit(b: u8) -> bool {
    48 <= b <= 57
}

pub open spec fn digit_value(b: u8) -> nat {
    (b - 48) as nat
}

/// Reading one byte of an escape sequence that started at offset `start`:
/// the byte and the position after it, or why there is none.
pub open spec fn byte_at(s: Seq<u8>, pos: nat, start: u32) -> (Result<u8, PclParserError>, nat) {
    if pos >= s.len() {
        (Err(PclParserError::InvalidCommand(start)), pos)
    } else if pos >= u32::MAX {
        (Err(PclParserError::FileTooBig), pos + 1)
    } else {
        (Ok(s[pos as int]), pos + 1)
    }
}

/// Continues a decimal number whose digits so far have the value `acc`: reads
/// digits while they come, and ends with the value and the first non-digit
/// (the terminator).  A value above `max` makes the sequence invalid.
pub open spec fn digits_from(s: Seq<u8>, pos: nat, acc: nat, max: nat, start: u32) -> (
    Result<(nat, u8), PclParserError>,
    nat,
)
    decreases s.len() - pos,
{
    if pos >= s.len() {
        (Err(PclParserError::InvalidCommand(start)), pos)
    } else if pos >= u32::MAX {
        (Err(PclParserError::FileTooBig), pos + 1)
    } else {
        let c = s[pos as int];
        if is_digit(c) {
            let v = acc * 10 + digit_value(c);
            if v > max {
                (Err(PclParserError::InvalidCommand(start)), pos + 1)
            } else {
                digits_from(s, pos + 1, v, max, start)
            }
        } else {
            (Ok((acc, c)), pos + 1)
        }
    }
}

/// A decimal number whose first byte `first` has already been read (it must be a digit).
pub open spec fn number_after(s: Seq<u8>, first: u8, pos: nat, max: nat, start: u32) -> (
    Result<(nat, u8), PclParserError>,
    nat,
) {
    if !is_digit(first) || digit_value(first) > max {
        (Err(PclParserError::InvalidCommand(start)), pos)
    } else {
        digits_from(s, pos, digit_value(first), max, start)
    }
}

/// A decimal number with its terminator, starting at `pos`.
pub open spec fn number_at(s: Seq<u8>, pos: nat, max: nat, start: u32) -> (
    Result<(nat, u8), PclParserError>,
    nat,
) {
    match byte_at(s, pos, start) {
        (Err(e), p) => (Err(e), p),
        (Ok(c), p) => number_after(s, c, p, max, start),
    }
}

/// A coordinate with its terminator: `+n` and `-n` are relative (at most `i16::MAX`),
/// a bare `n` is absolute (at most `u16::MAX`).
pub open spec fn position_at(s: Seq<u8>, pos: nat, start: u32) -> (
    Result<(Position, u8), PclParserError>,
    nat,
) {
    match byte_at(s, pos, start) {
        (Err(e), p) => (Err(e), p),
        (Ok(c), p) => if c == 43u8 || c == 45u8 {
            match number_at(s, p, 32767, start) {
                (Ok((v, t)), q) => (
                    Ok((Position::Relative(if c == 45u8 { -v } else { v as int } as i16), t)),
                    q,
                ),
                (Err(e), q) => (Err(e), q),
            }
        } else {
            match number_after(s, c, p, 65535, start) {
                (Ok((v, t)), q) => (Ok((Position::Absolute(v as u16), t)), q),
                (Err(e), q) => (Err(e), q),
            }
        },
    }
}

/// `ESC & k n G` (line termination, n at most 3) and `ESC & k n H` (horizontal motion index).
pub open spec fn amp_k_at(s: Seq<u8>, pos: nat, start: u32) -> (
    Result<PclCommand, PclParserError>,
    nat,
) {
    match number_at(s, pos, 65535, start) {
        (Err(e), p) => (Err(e), p),
        (Ok((n, c)), p) => if c == 71u8 {
            if n <= 3 {
                (Ok(PclCommand::LineTermination(n as u8)), p)
            } else {
                (Err(PclParserError::InvalidCommand(start)), p)
            }
        } else if c == 72u8 {
            (Ok(PclCommand::HorizontalMotionIndex(n as u16)), p)
        } else {
            (Err(PclParserError::UnknownCommand(start)), p)
        },
    }
}

/// `ESC & l n C` (vertical motion index).
pub open spec fn amp_l_at(s: Seq<u8>, pos: nat, start: u32) -> (
    Result<PclCommand, PclParserError>,
    nat,
) {
    match number_at(s, pos, 65535, start) {
        (Err(e), p) => (Err(e), p),
        (Ok((n, c)), p) => if c == 67u8 {
            (Ok(PclCommand::VerticalMotionIndex(n as u16)), p)
        } else {
            (Err(PclParserError::UnknownCommand(start)), p)
        },
    }
}

/// `ESC & s n C` (end-of-line wrap, n at most 1).
pub open spec fn amp_s_at(s: Seq<u8>, pos: nat, start: u32) -> (
    Result<PclCommand, PclParserError>,
    nat,
) {
    match number_at(s, pos, 255, start) {
        (Err(e), p) => (Err(e), p),
        (Ok((n, c)), p) => if c == 67u8 {
            if n > 1 {
                (Err(PclParserError::InvalidCommand(start)), p)
            } else {
                (Ok(PclCommand::EndOfLineWrap(n as u8)), p)
            }
        } else {
            (Err(PclParserError::UnknownCommand(start)), p)
        },
    }
}

/// `ESC & d D` (underline on) and `ESC & d @` (underline off).
pub open spec fn amp_d_at(s: Seq<u8>, pos: nat, start: u32) -> (
    Result<PclCommand, PclParserError>,
    nat,
) {
    match byte_at(s, pos, start) {
        (Err(e), p) => (Err(e), p),
        (Ok(c), p) => if c == 68u8 {
            (Ok(PclCommand::EnableUnderline), p)
        } else if c == 64u8 {
            (Ok(PclCommand::DisableUnderline), p)
        } else {
            (Err(PclParserError::UnknownCommand(start)), p)
        },
    }
}

/// `ESC * r n F` (raster graphics presentation mode, n is 0 or 3).
pub open spec fn star_r_at(s: Seq<u8>, pos: nat, start: u32) -> (
    Result<PclCommand, PclParserError>,
    nat,
) {
    match number_at(s, pos, 255, start) {
        (Err(e), p) => (Err(e), p),
        (Ok((n, c)), p) => if c == 70u8 {
            if n != 0 && n != 3 {
                (Err(PclParserError::InvalidCommand(start)), p)
            } else {
                (Ok(PclCommand::RasterGraphicsPresentationMode(n as u8)), p)
            }
        } else {
            (Err(PclParserError::UnknownCommand(start)), p)
        },
    }
}

/// `ESC * p pos Y` (vertical) and `ESC * p pos X` (horizontal cursor positioning).
pub open spec fn star_p_at(s: Seq<u8>, pos: nat, start: u32) -> (
    Result<PclCommand, PclParserError>,
    nat,
) {
    match position_at(s, pos, start) {
        (Err(e), p) => (Err(e), p),
        (Ok((n, c)), p) => if c == 89u8 {
            (Ok(PclCommand::VerticalCursorPositioning(n)), p)
        } else if c == 88u8 {
            (Ok(PclCommand::HorizontalCursorPositioning(n)), p)
        } else {
            (Err(PclParserError::UnknownCommand(start)), p)
        },
    }
}

/// `ESC & ...`: the second byte selects the group.
pub open spec fn amp_at(s: Seq<u8>, pos: nat, start: u32) -> (
    Result<PclCommand, PclParserError>,
    nat,
) {
    match byte_at(s, pos, start) {
        (Err(e), p) => (Err(e), p),
        (Ok(c), p) => if c == 107u8 {
            amp_k_at(s, p, start)
        } else if c == 108u8 {
            amp_l_at(s, p, start)
        } else if c == 115u8 {
            amp_s_at(s, p, start)
        } else if c == 100u8 {
            amp_d_at(s, p, start)
        } else {
            (Err(PclParserError::UnknownCommand(start)), p)
        },
    }
}

/// `ESC * ...`: the second byte selects the group.
pub open spec fn star_at(s: Seq<u8>, pos: nat, start: u32) -> (
    Result<PclCommand, PclParserError>,
    nat,
) {
    match byte_at(s, pos, start) {
        (Err(e), p) => (Err(e), p),
        (Ok(c), p) => if c == 114u8 {
            star_r_at(s, p, start)
        } else if c == 112u8 {
            star_p_at(s, p, start)
        } else {
            (Err(PclParserError::UnknownCommand(start)), p)
        },
    }
}

/// `ESC ) n c` (secondary symbol set `n` with terminator `c`, which lies in 64..96).
pub open spec fn rparen_at(s: Seq<u8>, pos: nat, start: u32) -> (
    Result<PclCommand, PclParserError>,
    nat,
) {
    match number_at(s, pos, 65535, start) {
        (Err(e), p) => (Err(e), p),
        (Ok((n, c)), p) => if c < 64 || c >= 96 {
            (Err(PclParserError::InvalidCommand(start)), p)
        } else {
            (Ok(PclCommand::SecondarySymbolSet(n as u16, c)), p)
        },
    }
}

/// The escape sequence that follows an ESC byte.
pub open spec fn escape_at(s: Seq<u8>, pos: nat, start: u32) -> (
    Result<PclCommand, PclParserError>,
    nat,
) {
    match byte_at(s, pos, start) {
        (Err(e), p) => (Err(e), p),
        (Ok(c), p) => if c == 57u8 {
            (Ok(PclCommand::ClearHorizontalMargins), p)
        } else if c == 38u8 {
            amp_at(s, p, start)
        } else if c == 42u8 {
            star_at(s, p, start)
        } else if c == 41u8 {
            rparen_at(s, p, start)
        } else {
            (Err(PclParserError::UnknownCommand(start)), p)
        },
    }
}

/// The next item of the stream that starts at `pos`, and the position after it:
/// nothing at the end of the input, otherwise a command with its offset or an error.
pub open spec fn next_at(s: Seq<u8>, pos: nat) -> (
    Option<Result<(PclCommand, u32), PclParserError>>,
    nat,
) {
    let start = offset_at(pos);
    if pos >= s.len() {
        (None, pos)
    } else if pos >= u32::MAX {
        (Some(Err(PclParserError::FileTooBig)), pos + 1)
    } else if s[pos as int] != ESC {
        (Some(Ok((PclCommand::Char(s[pos as int]), start))), pos + 1)
    } else {
        match escape_at(s, pos + 1, start) {
            (Ok(c), q) => (Some(Ok((c, start))), q),
            (Err(e), q) => (Some(Err(e)), q),
        }
    }
}

proof fn lemma_digits_from(s: Seq<u8>, pos: nat, acc: nat, max: nat, start: u32)
    requires
        pos <= s.len(),
    ensures
        pos <= digits_from(s, pos, acc, max, start).1 <= s.len(),
    decreases s.len() - pos,
{
    if pos < s.len() && pos < u32::MAX {
        let c = s[pos as int];
        if is_digit(c) && acc * 10 + digit_value(c) <= max {
            lemma_digits_from(s, pos + 1, acc * 10 + digit_value(c), max, start);
        }
    }
}

proof fn lemma_number_at(s: Seq<u8>, pos: nat, max: nat, start: u32)
    requires
        pos <= s.len(),
    ensures
        pos <= number_at(s, pos, max, start).1 <= s.len(),
{
    if pos < s.len() && pos < u32::MAX {
        let c = s[pos as int];
        if is_digit(c) {
            lemma_digits_from(s, pos + 1, digit_value(c), max, start);
        }
    }
}

proof fn lemma_position_at(s: Seq<u8>, pos: nat, start: u32)
    requires
        pos <= s.len(),
    ensures
        pos <= position_at(s, pos, start).1 <= s.len(),
{
    if pos < s.len() && pos < u32::MAX {
        let c = s[pos as int];
        lemma_number_at(s, pos + 1, 32767, start);
        if is_digit(c) {
            lemma_digits_from(s, pos + 1, digit_value(c), 65535, start);
        }
    }
}

/// An escape sequence stays within the input, and what it yields is well formed.
proof fn lemma_escape_at(s: Seq<u8>, pos: nat, start: u32)
    requires
        pos <= s.len(),
    ensures
        pos <= escape_at(s, pos, start).1 <= s.len(),
        escape_at(s, pos, start).0 matches Ok(c) ==> c.well_formed(),
{
    let p = pos + 1;
    if pos < s.len() && pos < u32::MAX {
        let c = s[pos as int];
        if p < s.len() && p < u32::MAX {
            let q = p + 1;
            lemma_number_at(s, q, 65535, start);
            lemma_number_at(s, q, 255, start);
            lemma_position_at(s, q, start);
        }
        lemma_number_at(s, p, 65535, start);
    }
}

/// Every item of the stream consumes at least one byte and stays within the
/// input, and every command it yields is well formed, with the offset of its first byte.
pub proof fn lemma_next_at(s: Seq<u8>, pos: nat)
    requires
        pos < s.len(),
    ensures
        pos < next_at(s, pos).1 <= s.len(),
        next_at(s, pos).0 is Some,
        next_at(s, pos).0 matches Some(Ok((command, offset))) ==> command.well_formed() && offset
            == offset_at(pos),
{
    lemma_escape_at(s, pos + 1, offset_at(pos));
}

/// `s2` begins with `s1`.
pub open spec fn extends(s1: Seq<u8>, s2: Seq<u8>) -> bool {
    s1.len() <= s2.len() && s2.take(s1.len() as int) == s1
}

proof fn lemma_byte_at_extends(s1: Seq<u8>, s2: Seq<u8>, pos: nat, start: u32)
    requires
        extends(s1, s2),
        byte_at(s1, pos, start).0 is Ok,
    ensures
        byte_at(s2, pos, start) == byte_at(s1, pos, start),
{
    assert(s2.take(s1.len() as int)[pos as int] == s2[pos as int]);
}

proof fn lemma_digits_from_extends(s1: Seq<u8>, s2: Seq<u8>, pos: nat, acc: nat, max: nat, start: u32)
    requires
        extends(s1, s2),
        digits_from(s1, pos, acc, max, start).0 is Ok,
    ensures
        digits_from(s2, pos, acc, max, start) == digits_from(s1, pos, acc, max, start),
    decreases s1.len() - pos,
{
    lemma_byte_at_extends(s1, s2, pos, start);
    let c = s1[pos as int];
    if is_digit(c) && acc * 10 + digit_value(c) <= max {
        lemma_digits_from_extends(s1, s2, pos + 1, acc * 10 + digit_value(c), max, start);
    }
}

proof fn lemma_number_at_extends(s1: Seq<u8>, s2: Seq<u8>, pos: nat, max: nat, start: u32)
    requires
        extends(s1, s2),
        number_at(s1, pos, max, start).0 is Ok,
    ensures
        number_at(s2, pos, max, start) == number_at(s1, pos, max, start),
{
    lemma_byte_at_extends(s1, s2, pos, start);
    let c = s1[pos as int];
    lemma_digits_from_extends(s1, s2, pos + 1, digit_value(c), max, start);
}

proof fn lemma_position_at_extends(s1: Seq<u8>, s2: Seq<u8>, pos: nat, start: u32)
    requires
        extends(s1, s2),
        position_at(s1, pos, start).0 is Ok,
    ensures
        position_at(s2, pos, start) == position_at(s1, pos, start),
{
    lemma_byte_at_extends(s1, s2, pos, start);
    let c = s1[pos as int];
    if c == 43u8 || c == 45u8 {
        lemma_number_at_extends(s1, s2, pos + 1, 32767, start);
    } else {
        lemma_digits_from_extends(s1, s2, pos + 1, digit_value(c), 65535, start);
    }
}

proof fn lemma_escape_at_extends(s1: Seq<u8>, s2: Seq<u8>, pos: nat, start: u32)
    requires
        extends(s1, s2),
        escape_at(s1, pos, start).0 is Ok,
    ensures
        escape_at(s2, pos, start) == escape_at(s1, pos, start),
{
    lemma_byte_at_extends(s1, s2, pos, start);
    let c = s1[pos as int];
    let p = pos + 1;
    if c == 38u8 || c == 42u8 {
        lemma_byte_at_extends(s1, s2, p, start);
        let d = s1[p as int];
        let q = p + 1;
        if c == 38u8 && d == 100u8 {
            lemma_byte_at_extends(s1, s2, q, start);
        } else if c == 38u8 && d == 115u8 {
            lemma_number_at_extends(s1, s2, q, 255, start);
        } else if c == 38u8 {
            lemma_number_at_extends(s1, s2, q, 65535, start);
        } else if d == 114u8 {
            lemma_number_at_extends(s1, s2, q, 255, start);
        } else {
            lemma_position_at_extends(s1, s2, q, start);
        }
    } else if c == 41u8 {
        lemma_number_at_extends(s1, s2, p, 65535, start);
    }
}

/// The parser never looks past the command it yields: a command parsed from
/// an input is parsed alike, ending at the same place, from any longer input
/// that begins with it.
pub proof fn lemma_next_at_reads_no_further(s1: Seq<u8>, s2: Seq<u8>, pos: nat)
    requires
        extends(s1, s2),
        next_at(s1, pos).0 matches Some(Ok(_)),
    ensures
        next_at(s2, pos) == next_at(s1, pos),
{
    assert(s2.take(s1.len() as int)[pos as int] == s2[pos as int]);
    if s1[pos as int] == ESC {
        lemma_escape_at_extends(s1, s2, pos + 1, offset_at(pos));
    }
}

/// The items of `k` successive pulls starting at `pos`, each with the position
/// (the number of bytes consumed) before it.
pub open spec fn pulls(s: Seq<u8>, pos: nat, k: nat) -> Seq<
    (Option<Result<(PclCommand, u32), PclParserError>>, nat),
>
    decreases k,
{
    if k == 0 {
        Seq::empty()
    } else {
        seq![(next_at(s, pos).0, pos)] + pulls(s, next_at(s, pos).1, (k - 1) as nat)
    }
}

/// `k` pulls give `k` items.
pub proof fn lemma_pulls_len(s: Seq<u8>, pos: nat, k: nat)
    ensures
        pulls(s, pos, k).len() == k,
    decreases k,
{
    if k > 0 {
        lemma_pulls_len(s, next_at(s, pos).1, (k - 1) as nat);
    }
}

/// The position after `k` successive pulls starting at `pos`.
pub open spec fn position_after(s: Seq<u8>, pos: nat, k: nat) -> nat
    decreases k,
{
    if k == 0 {
        pos
    } else {
        position_after(s, next_at(s, pos).1, (k - 1) as nat)
    }
}

/// The errors that a command starting at offset `start` can end with.
pub open spec fn error_of_command(e: PclParserError, start: u32) -> bool {
    e == PclParserError::FileTooBig || e == PclParserError::UnknownCommand(start)
        || e == PclParserError::InvalidCommand(start)
}

/// What a part of a command gives: its errors are those of the command, and
/// unless the input is too big it ends at an offset that still fits.
pub open spec fn part_ends_in_range<T>(r: (Result<T, PclParserError>, nat), pos: nat, start: u32) -> bool {
    &&& r.0 matches Err(e) ==> error_of_command(e, start)
    &&& pos <= u32::MAX && r.0 != Err::<T, PclParserError>(PclParserError::FileTooBig) ==> r.1 <= u32::MAX
}

proof fn lemma_digits_from_range(s: Seq<u8>, pos: nat, acc: nat, max: nat, start: u32)
    ensures
        part_ends_in_range(digits_from(s, pos, acc, max, start), pos, start),
    decreases s.len() - pos,
{
    if pos < s.len() && pos < u32::MAX {
        let c = s[pos as int];
        if is_digit(c) && acc * 10 + digit_value(c) <= max {
            lemma_digits_from_range(s, pos + 1, acc * 10 + digit_value(c), max, start);
        }
    }
}

proof fn lemma_number_at_range(s: Seq<u8>, pos: nat, max: nat, start: u32)
    ensures
        part_ends_in_range(number_at(s, pos, max, start), pos, start),
{
    if pos < s.len() && pos < u32::MAX {
        lemma_digits_from_range(s, pos + 1, digit_value(s[pos as int]), max, start);
    }
}

proof fn lemma_escape_at_range(s: Seq<u8>, pos: nat, start: u32)
    ensures
        part_ends_in_range(escape_at(s, pos, start), pos, start),
{
    let p = pos + 1;
    if pos < s.len() && pos < u32::MAX {
        lemma_number_at_range(s, p, 65535, start);
        if p < s.len() && p < u32::MAX {
            let q = p + 1;
            lemma_number_at_range(s, q, 65535, start);
            lemma_number_at_range(s, q, 255, start);
            if q < s.len() && q < u32::MAX {
                lemma_number_at_range(s, q + 1, 32767, start);
                lemma_digits_from_range(s, q + 1, digit_value(s[q as int]), 65535, start);
            }
        }
    }
}

/// Offsets count consumed bytes: over any number of pulls from the start of
/// the input, as long as none has reported the input too big, the position is
/// a byte count that fits in a `u32` (so it is its own offset), and every
/// command, and every unknown or invalid command, is reported at the position
/// before its pull.
pub proof fn lemma_offsets_count_bytes(s: Seq<u8>, pos: nat, k: nat)
    requires
        pos <= u32::MAX,
        forall|i: int|
            0 <= i < k ==> pulls(s, pos, k)[i].0 != Some(
                Err::<(PclCommand, u32), PclParserError>(PclParserError::FileTooBig),
            ),
    ensures
        position_after(s, pos, k) <= u32::MAX,
        offset_at(position_after(s, pos, k)) == position_after(s, pos, k),
        forall|i: int|
            0 <= i < k ==> match #[trigger] pulls(s, pos, k)[i] {
                (Some(Ok((_, o))), before) => o == before,
                (Some(Err(PclParserError::UnknownCommand(o))), before) => o == before,
                (Some(Err(PclParserError::InvalidCommand(o))), before) => o == before,
                _ => true,
            },
    decreases k,
{
    if k > 0 {
        let (r, q) = next_at(s, pos);
        let rest = pulls(s, q, (k - 1) as nat);
        lemma_pulls_len(s, q, (k - 1) as nat);
        assert(pulls(s, pos, k) == seq![(r, pos)] + rest);
        assert(pulls(s, pos, k)[0] == (r, pos));
        assert(r != Some(Err::<(PclCommand, u32), PclParserError>(PclParserError::FileTooBig)));
        if pos < s.len() && pos < u32::MAX && s[pos as int] == ESC {
            lemma_escape_at_range(s, pos + 1, offset_at(pos));
        }
        assert(q <= u32::MAX);
        assert forall|i: int| 0 <= i < k - 1 implies rest[i].0 != Some(
            Err::<(PclCommand, u32), PclParserError>(PclParserError::FileTooBig),
        ) by {
            assert(pulls(s, pos, k)[i + 1] == rest[i]);
        }
        lemma_offsets_count_bytes(s, q, (k - 1) as nat);
        assert forall|i: int| 0 <= i < k implies match #[trigger] pulls(s, pos, k)[i] {
            (Some(Ok((_, o))), before) => o == before,
            (Some(Err(PclParserError::UnknownCommand(o))), before) => o == before,
            (Some(Err(PclParserError::InvalidCommand(o))), before) => o == before,
            _ => true,
        } by {
            if i > 0 {
                assert(pulls(s, pos, k)[i] == rest[i - 1]);
            }
        }
    }
}

/// On input without ESC bytes from `pos` on, whose offsets all fit in a `u32`,
/// each pull gives the next byte as a character at its own offset, and the
/// pull after the last byte gives nothing.
pub proof fn lemma_plain_bytes_are_characters(s: Seq<u8>, pos: nat)
    requires
        pos <= s.len() <= u32::MAX,
        forall|i: int| pos <= i < s.len() ==> s[i] != ESC,
    ensures
        ({
            let n = (s.len() - pos) as nat;
            let items = pulls(s, pos, n + 1);
            &&& forall|i: int|
                0 <= i < n ==> #[trigger] items[i].0 == Some(
                    Ok::<(PclCommand, u32), PclParserError>(
                        (PclCommand::Char(s[pos + i]), (pos + i) as u32),
                    ),
                )
            &&& items[n as int].0 is None
            &&& position_after(s, pos, n + 1) == s.len()
        }),
    decreases s.len() - pos,
{
    let n = (s.len() - pos) as nat;
    if n > 0 {
        let q = pos + 1;
        assert(next_at(s, pos).1 == q);
        lemma_plain_bytes_are_characters(s, q);
        let rest = pulls(s, q, n);
        lemma_pulls_len(s, q, n);
        assert(pulls(s, pos, n + 1) == seq![(next_at(s, pos).0, pos)] + rest);
        assert forall|i: int| 0 <= i < n implies #[trigger] pulls(s, pos, n + 1)[i].0 == Some(
            Ok::<(PclCommand, u32), PclParserError>(((PclCommand::Char(s[pos + i]), (pos + i) as u32))),
        ) by {
            if i > 0 {
                assert(pulls(s, pos, n + 1)[i] == rest[i - 1]);
                assert(q + (i - 1) == pos + i);
            }
        }
        assert(pulls(s, pos, n + 1)[n as int] == rest[n - 1]);
    } else {
        assert(pulls(s, pos, 1)[0] == (next_at(s, pos).0, pos));
        assert(position_after(s, pos, 1) == position_after(s, pos, 0));
    }
}

/// `ESC & k n G` with a single decimal digit `n`: the line termination mode
/// `n` for `n` in 0..=3, at the offset of the ESC byte, consuming the five
/// bytes; any larger digit makes the command invalid.
pub proof fn lemma_line_termination_parameters(s: Seq<u8>, pos: nat, n: u8)
    requires
        pos + 5 <= s.len(),
        pos + 5 <= u32::MAX,
        n <= 9,
        s[pos as int] == 0x1bu8,
        s[pos + 1int] == 38u8,
        s[pos + 2int] == 107u8,
        s[pos + 3int] == 48 + n,
        s[pos + 4int] == 71u8,
    ensures
        n <= 3 ==> next_at(s, pos) == (
            Some(Ok::<(PclCommand, u32), PclParserError>((PclCommand::LineTermination(n), pos as u32))),
            pos + 5,
        ),
        n > 3 ==> next_at(s, pos) == (
            Some(Err::<(PclCommand, u32), PclParserError>(PclParserError::InvalidCommand(pos as u32))),
            pos + 5,
        ),
{
    let start = offset_at(pos);
    assert(start == pos as u32);
    assert(number_at(s, pos + 3, 65535, start) == digits_from(s, pos + 4, n as nat, 65535, start));
    assert(digits_from(s, pos + 4, n as nat, 65535, start) == (
        Ok::<(nat, u8), PclParserError>((n as nat, 71u8)),
        pos + 5,
    ));
    assert(amp_k_at(s, pos + 3, start).1 == pos + 5);
}

/// A pull parser over a byte slice.
pub struct PclParser<'a> {
    bytes: &'a [u8],
    pos: usize,
    command_start: u32,
}

impl<'a> PclParser<'a> {
    #[verifier::type_invariant]
    spec fn inv(&self) -> bool {
        self.pos <= self.bytes@.len()
    }

    /// The whole input.
    pub closed spec fn input(&self) -> Seq<u8> {
        self.bytes@
    }

    /// How many bytes of the input have been consumed.
    pub closed spec fn position(&self) -> nat {
        self.pos as nat
    }

    /// The offset of the command being read.
    pub closed spec fn start(&self) -> u32 {
        self.command_start
    }

    /// Reads the first byte of a command, after recording the command's offset.
    fn read_first_byte(&mut self) -> (r: Option<Result<u8, PclParserError>>)
        ensures
            final(self).input() == old(self).input(),
            final(self).start() == offset_at(old(self).position()),
            old(self).position() >= old(self).input().len() ==> r is None
                && final(self).position() == old(self).position(),
            old(self).position() < old(self).input().len() ==> final(self).position()
                == old(self).position() + 1,
            old(self).position() < old(self).input().len() && old(self).position() >= u32::MAX
                ==> r == Some(Err::<u8, PclParserError>(PclParserError::FileTooBig)),
            old(self).position() < old(self).input().len() && old(self).position() < u32::MAX
                ==> r == Some(Ok::<u8, PclParserError>(old(self).input()[old(self).position() as int])),
    {
        proof {
            use_type_invariant(&*self);
        }
        self.command_start = if self.pos < 0xFFFF_FFFFusize {
            self.pos as u32
        } else {
            u32::MAX
        };
        if self.pos >= self.bytes.len() {
            return None;
        }
        let c = self.bytes[self.pos];
        let too_big = self.pos >= 0xFFFF_FFFFusize;
        self.pos = self.pos + 1;
        if too_big {
            return Some(Err(PclParserError::FileTooBig));
        }
        Some(Ok(c))
    }

    /// Reads a further byte of the command.
    fn read_byte(&mut self) -> (r: Result<u8, PclParserError>)
        ensures
            final(self).input() == old(self).input(),
            final(self).start() == old(self).start(),
            (r, final(self).position()) == byte_at(
                old(self).input(),
                old(self).position(),
                old(self).start(),
            ),
    {
        proof {
            use_type_invariant(&*self);
        }
        if self.pos >= self.bytes.len() {
            return Err(PclParserError::InvalidCommand(self.command_start));
        }
        let c = self.bytes[self.pos];
        let too_big = self.pos >= 0xFFFF_FFFFusize;
        self.pos = self.pos + 1;
        if too_big {
            return Err(PclParserError::FileTooBig);
        }
        Ok(c)
    }

    /// Reads the rest of a decimal number whose first byte `first` has been read,
    /// and the byte that ends it.
    fn read_digits(&mut self, first: u8, max: u16) -> (r: Result<(u16, u8), PclParserError>)
        requires
            max >= 9,
        ensures
            final(self).input() == old(self).input(),
            final(self).start() == old(self).start(),
            ({
                let (sr, q) = number_after(
                    old(self).input(),
                    first,
                    old(self).position(),
                    max as nat,
                    old(self).start(),
                );
                &&& final(self).position() == q
                &&& match sr {
                    Ok((v, t)) => v <= max && r == Ok::<(u16, u8), PclParserError>((v as u16, t)),
                    Err(e) => r == Err::<(u16, u8), PclParserError>(e),
                }
            }),
    {
        if first < 48u8 || first > 57u8 {
            return Err(PclParserError::InvalidCommand(self.command_start));
        }
        let ghost s = self.input();
        let ghost start = self.start();
        let ghost target = number_after(s, first, self.position(), max as nat, start);
        let mut res: u32 = (first - 48u8) as u32;
        loop
            invariant
                self.input() == s,
                self.start() == start,
                s == old(self).input(),
                start == old(self).start(),
                target == number_after(s, first, old(self).position(), max as nat, start),
                res <= max,
                max >= 9,
                digits_from(s, self.position(), res as nat, max as nat, start) == target,
            decreases s.len() - self.position(),
        {
            proof {
                use_type_invariant(&*self);
            }
            let c = match self.read_byte() {
                Ok(c) => c,
                Err(e) => {
                    return Err(e);
                },
            };
            if 48u8 <= c && c <= 57u8 {
                let v = res * 10 + (c - 48u8) as u32;
                if v > max as u32 {
                    return Err(PclParserError::InvalidCommand(self.command_start));
                }
                res = v;
            } else {
                return Ok((res as u16, c));
            }
        }
    }

    /// Reads a decimal number of at most `u16::MAX` and the byte that ends it.
    fn read_u16(&mut self) -> (r: Result<(u16, u8), PclParserError>)
        ensures
            final(self).input() == old(self).input(),
            final(self).start() == old(self).start(),
            ({
                let (sr, q) = number_at(old(self).input(), old(self).position(), 65535, old(self).start());
                &&& final(self).position() == q
                &&& match sr {
                    Ok((v, t)) => v <= 65535 && r == Ok::<(u16, u8), PclParserError>((v as u16, t)),
                    Err(e) => r == Err::<(u16, u8), PclParserError>(e),
                }
            }),
    {
        let c = self.read_byte()?;
        self.read_digits(c, 65535)
    }

    /// Reads a decimal number of at most `u8::MAX` and the byte that ends it.
    fn read_u8(&mut self) -> (r: Result<(u8, u8), PclParserError>)
        ensures
            final(self).input() == old(self).input(),
            final(self).start() == old(self).start(),
            ({
                let (sr, q) = number_at(old(self).input(), old(self).position(), 255, old(self).start());
                &&& final(self).position() == q
                &&& match sr {
                    Ok((v, t)) => v <= 255 && r == Ok::<(u8, u8), PclParserError>((v as u8, t)),
                    Err(e) => r == Err::<(u8, u8), PclParserError>(e),
                }
            }),
    {
        let c = self.read_byte()?;
        let (n, t) = self.read_digits(c, 255)?;
        Ok((n as u8, t))
    }

    /// Reads a coordinate: `+n` or `-n` (relative) or `n` (absolute), and the byte that ends it.
    fn read_i16_or_u16(&mut self) -> (r: Result<(Position, u8), PclParserError>)
        ensures
            final(self).input() == old(self).input(),
            final(self).start() == old(self).start(),
            (r, final(self).position()) == position_at(
                old(self).input(),
                old(self).position(),
                old(self).start(),
            ),
    {
        let c = self.read_byte()?;
        if c == 43u8 || c == 45u8 {
            let neg = c == 45u8;
            let (n, t) = self.read_u16_bounded(32767)?;
            let v = n as i16;
            Ok((Position::Relative(if neg { -v } else { v }), t))
        } else {
            let (n, t) = self.read_digits(c, 65535)?;
            Ok((Position::Absolute(n), t))
        }
    }

    /// Reads a decimal number of at most `max` and the byte that ends it.
    fn read_u16_bounded(&mut self, max: u16) -> (r: Result<(u16, u8), PclParserError>)
        requires
            max >= 9,
        ensures
            final(self).input() == old(self).input(),
            final(self).start() == old(self).start(),
            ({
                let (sr, q) = number_at(old(self).input(), old(self).position(), max as nat, old(self).start());
                &&& final(self).position() == q
                &&& match sr {
                    Ok((v, t)) => v <= max && r == Ok::<(u16, u8), PclParserError>((v as u16, t)),
                    Err(e) => r == Err::<(u16, u8), PclParserError>(e),
                }
            }),
    {
        let c = self.read_byte()?;
        self.read_digits(c, max)
    }

    /// The rest of `ESC & k`.
    fn parse_amp_k(&mut self) -> (r: Result<PclCommand, PclParserError>)
        ensures
            final(self).input() == old(self).input(),
            final(self).start() == old(self).start(),
            (r, final(self).position()) == amp_k_at(
                old(self).input(),
                old(self).position(),
                old(self).start(),
            ),
    {
        let (n, c) = self.read_u16()?;
        if c == 71u8 {
            if n <= 3 {
                Ok(PclCommand::LineTermination(n as u8))
            } else {
                Err(PclParserError::InvalidCommand(self.command_start))
            }
        } else if c == 72u8 {
            Ok(PclCommand::HorizontalMotionIndex(n))
        } else {
            Err(PclParserError::UnknownCommand(self.command_start))
        }
    }

    /// The rest of `ESC & l`.
    fn parse_amp_l(&mut self) -> (r: Result<PclCommand, PclParserError>)
        ensures
            final(self).input() == old(self).input(),
            final(self).start() == old(self).start(),
            (r, final(self).position()) == amp_l_at(
                old(self).input(),
                old(self).position(),
                old(self).start(),
            ),
    {
        let (n, c) = self.read_u16()?;
        if c == 67u8 {
            Ok(PclCommand::VerticalMotionIndex(n))
        } else {
            Err(PclParserError::UnknownCommand(self.command_start))
        }
    }

    /// The rest of `ESC & s`.
    fn parse_amp_s(&mut self) -> (r: Result<PclCommand, PclParserError>)
        ensures
            final(self).input() == old(self).input(),
            final(self).start() == old(self).start(),
            (r, final(self).position()) == amp_s_at(
                old(self).input(),
                old(self).position(),
                old(self).start(),
            ),
    {
        let (n, c) = self.read_u8()?;
        if c == 67u8 {
            if n > 1 {
                return Err(PclParserError::InvalidCommand(self.command_start));
            }
            Ok(PclCommand::EndOfLineWrap(n))
        } else {
            Err(PclParserError::UnknownCommand(self.command_start))
        }
    }

    /// The rest of `ESC & d`.
    fn parse_amp_d(&mut self) -> (r: Result<PclCommand, PclParserError>)
        ensures
            final(self).input() == old(self).input(),
            final(self).start() == old(self).start(),
            (r, final(self).position()) == amp_d_at(
                old(self).input(),
                old(self).position(),
                old(self).start(),
            ),
    {
        let c = self.read_byte()?;
        if c == 68u8 {
            Ok(PclCommand::EnableUnderline)
        } else if c == 64u8 {
            Ok(PclCommand::DisableUnderline)
        } else {
            Err(PclParserError::UnknownCommand(self.command_start))
        }
    }

    /// The rest of `ESC * r`.
    fn parse_star_r(&mut self) -> (r: Result<PclCommand, PclParserError>)
        ensures
            final(self).input() == old(self).input(),
            final(self).start() == old(self).start(),
            (r, final(self).position()) == star_r_at(
                old(self).input(),
                old(self).position(),
                old(self).start(),
            ),
    {
        let (n, c) = self.read_u8()?;
        if c == 70u8 {
            if n != 0 && n != 3 {
                return Err(PclParserError::InvalidCommand(self.command_start));
            }
            Ok(PclCommand::RasterGraphicsPresentationMode(n))
        } else {
            Err(PclParserError::UnknownCommand(self.command_start))
        }
    }

    /// The rest of `ESC * p`.
    fn parse_star_p(&mut self) -> (r: Result<PclCommand, PclParserError>)
        ensures
            final(self).input() == old(self).input(),
            final(self).start() == old(self).start(),
            (r, final(self).position()) == star_p_at(
                old(self).input(),
                old(self).position(),
                old(self).start(),
            ),
    {
        let (n, c) = self.read_i16_or_u16()?;
        if c == 89u8 {
            Ok(PclCommand::VerticalCursorPositioning(n))
        } else if c == 88u8 {
            Ok(PclCommand::HorizontalCursorPositioning(n))
        } else {
            Err(PclParserError::UnknownCommand(self.command_start))
        }
    }

    /// The rest of `ESC &`.
    fn parse_amp(&mut self) -> (r: Result<PclCommand, PclParserError>)
        ensures
            final(self).input() == old(self).input(),
            final(self).start() == old(self).start(),
            (r, final(self).position()) == amp_at(
                old(self).input(),
                old(self).position(),
                old(self).start(),
            ),
    {
        let c = self.read_byte()?;
        if c == 107u8 {
            self.parse_amp_k()
        } else if c == 108u8 {
            self.parse_amp_l()
        } else if c == 115u8 {
            self.parse_amp_s()
        } else if c == 100u8 {
            self.parse_amp_d()
        } else {
            Err(PclParserError::UnknownCommand(self.command_start))
        }
    }

    /// The rest of `ESC *`.
    fn parse_star(&mut self) -> (r: Result<PclCommand, PclParserError>)
        ensures
            final(self).input() == old(self).input(),
            final(self).start() == old(self).start(),
            (r, final(self).position()) == star_at(
                old(self).input(),
                old(self).position(),
                old(self).start(),
            ),
    {
        let c = self.read_byte()?;
        if c == 114u8 {
            self.parse_star_r()
        } else if c == 112u8 {
            self.parse_star_p()
        } else {
            Err(PclParserError::UnknownCommand(self.command_start))
        }
    }

    /// The rest of `ESC )`.
    fn parse_rparen(&mut self) -> (r: Result<PclCommand, PclParserError>)
        ensures
            final(self).input() == old(self).input(),
            final(self).start() == old(self).start(),
            (r, final(self).position()) == rparen_at(
                old(self).input(),
                old(self).position(),
                old(self).start(),
            ),
    {
        let (n, c) = self.read_u16()?;
        if c < 64 || c >= 96 {
            return Err(PclParserError::InvalidCommand(self.command_start));
        }
        Ok(PclCommand::SecondarySymbolSet(n, c))
    }

    /// The escape sequence after an ESC byte.
    fn parse(&mut self) -> (r: Result<PclCommand, PclParserError>)
        ensures
            final(self).input() == old(self).input(),
            final(self).start() == old(self).start(),
            (r, final(self).position()) == escape_at(
                old(self).input(),
                old(self).position(),
                old(self).start(),
            ),
    {
        let c = self.read_byte()?;
        if c == 57u8 {
            Ok(PclCommand::ClearHorizontalMargins)
        } else if c == 38u8 {
            self.parse_amp()
        } else if c == 42u8 {
            self.parse_star()
        } else if c == 41u8 {
            self.parse_rparen()
        } else {
            Err(PclParserError::UnknownCommand(self.command_start))
        }
    }

    /// The next command with the offset of its first byte, an error, or `None` at the end of the input.
    pub fn next(&mut self) -> (r: Option<Result<(PclCommand, u32), PclParserError>>)
        ensures
            final(self).input() == old(self).input(),
            (r, final(self).position()) == next_at(old(self).input(), old(self).position()),
            final(self).position() <= final(self).input().len(),
            r is None <==> old(self).position() == old(self).input().len(),
            r is Some ==> final(self).position() > old(self).position(),
            r matches Some(Ok((command, offset))) ==> command.well_formed() && offset == offset_at(
                old(self).position(),
            ),
            final(self).start() == offset_at(old(self).position()),
    {
        proof {
            use_type_invariant(&*self);
        }
        let c = match self.read_first_byte() {
            None => {
                return None;
            },
            Some(Ok(c)) => c,
            Some(Err(e)) => {
                return Some(Err(e));
            },
        };
        if c != ESC {
            return Some(Ok((PclCommand::Char(c), self.command_start)));
        }
        proof {
            lemma_escape_at(self.input(), self.position(), self.start());
        }
        let r = match self.parse() {
            Err(e) => Some(Err(e)),
            Ok(command) => Some(Ok((command, self.command_start))),
        };
        proof {
            use_type_invariant(&*self);
        }
        r
    }
}

/// A parser positioned at the start of `bytes`.
pub fn parse_pcl<'a>(bytes: &'a [u8]) -> (p: PclParser<'a>)
    ensures
        p.input() == bytes@,
        p.position() == 0,
        p.start() == 0,
{
    PclParser { bytes, pos: 0, command_start: 0 }
}

} // verus!

