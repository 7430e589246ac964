//! The wire protocol: how commands and replies are laid out in bytes.
//!
//! Each function reads from the front of a byte slice and leaves the slice
//! at the first byte it has not read. What it returns and where it leaves
//! the slice is stated by a specification function on the bytes.

use vstd::prelude::*;
use vstd::slice::slice_subrange;
use vstd::string::{StrSliceExecFns, StringExecFns, StringSliceAdditionalSpecFns};
use crate::commands::{Command, CommandModel};
use crate::names::{decimal_chars, decimal_string};
use crate::record::{decimal_value, is_digit};
use crate::text::{from_utf8_lossy, lossy_text, push_char};
use vstd::utf8::{decode_utf8, encode_utf8, valid_utf8};

verus! {

/// The kinds of value that a reply can start with.
#[derive(Debug, PartialEq)]
pub enum RespType {
    SimpleString,
    Error,
    Integer,
    BulkString,
    Array,
}

/// What a parser yields: a value or the text of an error.
pub type Parsed<T> = Result<T, Seq<char>>;

/// Does the executable result show the specified one?
pub open spec fn shows_text(r: Result<String, String>, expected: Parsed<Seq<char>>) -> bool {
    match (r, expected) {
        (Ok(s), Ok(t)) => s@ == t,
        (Err(e), Err(msg)) => e@ == msg,
        _ => false,
    }
}

/// The character that a single byte is read as: itself where it is ASCII,
/// and the replacement character otherwise.
pub open spec fn lossy_char(b: u8) -> char {
    if b < 128 {
        b as char
    } else {
        '\u{FFFD}'
    }
}

/// The characters that bytes are read as one by one.
pub open spec fn lossy_chars(bytes: Seq<u8>) -> Seq<char> {
    Seq::new(bytes.len(), |i: int| lossy_char(bytes[i]))
}

/// The index of the first carriage return at or behind `from`, or the
/// length of the input where there is none.
pub open spec fn line_end(input: Seq<u8>, from: int) -> int
    decreases input.len() - from,
{
    if from < 0 || from >= input.len() {
        input.len() as int
    } else if input[from] == 13 {
        from
    } else {
        line_end(input, from + 1)
    }
}

/// The bytes before the first carriage return.
pub open spec fn line_of(input: Seq<u8>) -> Seq<u8> {
    input.subrange(0, line_end(input, 0))
}

/// What is left once a line is read: the bytes behind the carriage return
/// and the one byte that follows it.
pub open spec fn after_line(input: Seq<u8>) -> Seq<u8> {
    if line_end(input, 0) + 2 <= input.len() {
        input.skip(line_end(input, 0) + 2)
    } else {
        Seq::empty()
    }
}

/// Is every byte a digit?
pub open spec fn all_digits(s: Seq<u8>) -> bool {
    forall|i: int| 0 <= i < s.len() ==> is_digit(#[trigger] s[i])
}

/// The digits of a line: what follows its sign, if it has one.
pub open spec fn digits_of(line: Seq<u8>) -> Seq<u8> {
    if line.len() > 0 && (line[0] == 43 || line[0] == 45) {
        line.skip(1)
    } else {
        line
    }
}

/// The integer of 32 bits that a line denotes: an optional sign, then one
/// or more decimal digits, with a value in range.
pub open spec fn integer_of(line: Seq<u8>) -> Option<i32> {
    let digits = digits_of(line);
    let magnitude = decimal_value(digits);
    if digits.len() == 0 || !all_digits(digits) {
        None
    } else if line[0] == 45 {
        if magnitude <= 0x8000_0000 {
            Some((-magnitude) as i32)
        } else {
            None
        }
    } else {
        if magnitude <= 0x7fff_ffff {
            Some(magnitude as i32)
        } else {
            None
        }
    }
}

/// The integer that the next line denotes, or the error of a line that
/// denotes none.
pub open spec fn integer_step(input: Seq<u8>) -> (Parsed<i32>, Seq<u8>) {
    match integer_of(line_of(input)) {
        Some(n) => (Ok(n), after_line(input)),
        None => (
            Err("'"@ + lossy_chars(line_of(input)) + "' cannot be parsed as int"@),
            after_line(input),
        ),
    }
}

/// The kind of value that a byte announces.
pub open spec fn resp_type_of(b: u8) -> Option<RespType> {
    if b == 43 {
        Some(RespType::SimpleString)
    } else if b == 45 {
        Some(RespType::Error)
    } else if b == 58 {
        Some(RespType::Integer)
    } else if b == 36 {
        Some(RespType::BulkString)
    } else if b == 42 {
        Some(RespType::Array)
    } else {
        None
    }
}

/// The kind of value that the input starts with.
pub open spec fn resp_type_step(input: Seq<u8>) -> (Parsed<RespType>, Seq<u8>) {
    if input.len() == 0 {
        (Err("parse_resp_type: Empty buffer"@), input)
    } else {
        match resp_type_of(input[0]) {
            Some(t) => (Ok(t), input.skip(1)),
            None => (
                Err(
                    "Expected one of [+, -, :, $, *], but got '"@ + seq![lossy_char(input[0])]
                        + "'"@,
                ),
                input.skip(1),
            ),
        }
    }
}

/// The input without its first byte, where it has one.
pub open spec fn advance(input: Seq<u8>) -> Seq<u8> {
    if input.len() > 0 {
        input.skip(1)
    } else {
        input
    }
}

/// The end of a bulk string: a carriage return and a line feed. A byte that
/// is missing counts as the byte read before it, and as 0 at the start.
pub open spec fn crlf_step(input: Seq<u8>) -> (Parsed<()>, Seq<u8>) {
    let first: u8 = if input.len() > 0 {
        input[0]
    } else {
        0
    };
    let second: u8 = if input.len() > 1 {
        input[1]
    } else {
        first
    };
    if first != 13 {
        (Err("Expected CR, but found '"@ + decimal_chars(first as nat) + "'"@), advance(input))
    } else if second != 10 {
        (
            Err("Expected LF, but found '"@ + decimal_chars(second as nat) + "'"@),
            advance(advance(input)),
        )
    } else {
        (Ok(()), advance(advance(input)))
    }
}

/// A bulk string: its length on a line, then as many bytes, then a carriage
/// return and a line feed. The length -1 stands for no string; a length
/// below that is an error.
pub open spec fn bulk_string_step(input: Seq<u8>) -> (Parsed<Option<Seq<char>>>, Seq<u8>) {
    let (length, rest) = integer_step(input);
    match length {
        Err(msg) => (Err(msg), rest),
        Ok(n) => if n == -1 {
            (Ok(None), rest)
        } else if n < 0 {
            (Err("Negative length of a bulk string: -"@ + decimal_chars((-n) as nat)), rest)
        } else if rest.len() < n {
            (
                Err(
                    "Expected "@ + decimal_chars(n as nat) + " bytes in bulk string but found only "@
                        + decimal_chars(rest.len()),
                ),
                Seq::empty(),
            )
        } else {
            match crlf_step(rest.skip(n as int)).0 {
                Err(msg) => (Err(msg), crlf_step(rest.skip(n as int)).1),
                Ok(()) => (
                    Ok(Some(lossy_text(rest.subrange(0, n as int)))),
                    crlf_step(rest.skip(n as int)).1,
                ),
            }
        },
    }
}

/// The bytes of the bulk string that the input starts with: as many bytes
/// behind the first line as the line says.
pub open spec fn bulk_string_bytes(input: Seq<u8>) -> Seq<u8> {
    match integer_step(input).0 {
        Ok(n) => if 0 <= n <= integer_step(input).1.len() {
            integer_step(input).1.subrange(0, n as int)
        } else {
            Seq::empty()
        },
        Err(_) => Seq::empty(),
    }
}

/// The name of a kind of value in an error.
pub open spec fn resp_type_name(t: RespType) -> Seq<char> {
    match t {
        RespType::SimpleString => "SimpleString"@,
        RespType::Error => "Error"@,
        RespType::Integer => "Integer"@,
        RespType::BulkString => "BulkString"@,
        RespType::Array => "Array"@,
    }
}

/// `count` bulk strings, each behind the byte that announces it, added to
/// the strings in `done`.
pub open spec fn items_step(input: Seq<u8>, count: nat, done: Seq<Option<Seq<char>>>) -> (
    Parsed<Seq<Option<Seq<char>>>>,
    Seq<u8>,
)
    decreases count,
{
    if count == 0 {
        (Ok(done), input)
    } else {
        match resp_type_step(input).0 {
            Err(msg) => (Err(msg), resp_type_step(input).1),
            Ok(RespType::BulkString) => match bulk_string_step(resp_type_step(input).1).0 {
                Err(msg) => (Err(msg), bulk_string_step(resp_type_step(input).1).1),
                Ok(item) => items_step(
                    bulk_string_step(resp_type_step(input).1).1,
                    (count - 1) as nat,
                    done.push(item),
                ),
            },
            Ok(other) => (
                Err(
                    "Only string as currently supported in arrays, but got type "@
                        + resp_type_name(other),
                ),
                resp_type_step(input).1,
            ),
        }
    }
}

/// An array of bulk strings: its length on a line, then the strings. The
/// length -1 stands for no array; a length below that is an error.
pub open spec fn array_step(input: Seq<u8>) -> (Parsed<Option<Seq<Option<Seq<char>>>>>, Seq<u8>) {
    let (length, rest) = integer_step(input);
    match length {
        Err(msg) => (Err(msg), rest),
        Ok(n) => if n == -1 {
            (Ok(None), rest)
        } else if n < 0 {
            (Err("Negative length of an array: -"@ + decimal_chars((-n) as nat)), rest)
        } else {
            match items_step(rest, n as nat, Seq::empty()).0 {
                Err(msg) => (Err(msg), items_step(rest, n as nat, Seq::empty()).1),
                Ok(items) => (Ok(Some(items)), items_step(rest, n as nat, Seq::empty()).1),
            }
        },
    }
}

/// The bytes of a simple string: `+`, the string, a carriage return and a
/// line feed.
pub open spec fn simple_string_bytes(text: Seq<u8>) -> Seq<u8> {
    seq![43u8] + text + seq![13u8, 10u8]
}

/// The bytes that stand for no bulk string: `$-1` and the end of the line.
pub open spec fn null_bulk_string_bytes() -> Seq<u8> {
    seq![36u8, 45u8, 49u8, 13u8, 10u8]
}

/// Reads the bytes of a line and leaves the reader behind the line's end.
fn read_line<'a>(reader: &mut &'a [u8]) -> (line: &'a [u8])
    ensures
        line@ == line_of(old(reader)@),
        (*final(reader))@ == after_line(old(reader)@),
{
    let input: &'a [u8] = *reader;
    let mut end: usize = 0;
    while end < input.len() && input[end] != 13
        invariant
            end <= input.len(),
            line_end(input@, 0) == line_end(input@, end as int),
        decreases input.len() - end,
    {
        end += 1;
    }
    let line = slice_subrange(input, 0, end);
    if end < input.len() && end + 1 < input.len() {
        *reader = slice_subrange(input, end + 2, input.len());
        assert((*reader)@ =~= after_line(input@));
    } else {
        *reader = slice_subrange(input, input.len(), input.len());
        assert((*reader)@ =~= after_line(input@));
    }
    line
}

/// Reads bytes one by one as characters.
fn lossy_string(bytes: &[u8]) -> (out: String)
    ensures
        out@ == lossy_chars(bytes@),
{
    let mut out = String::new();
    let mut i: usize = 0;
    while i < bytes.len()
        invariant
            i <= bytes.len(),
            out@ == lossy_chars(bytes@.subrange(0, i as int)),
        decreases bytes.len() - i,
    {
        let b: u8 = bytes[i];
        let c: char = if b < 128 {
            b as char
        } else {
            '\u{FFFD}'
        };
        push_char(&mut out, c);
        assert(out@ =~= lossy_chars(bytes@.subrange(0, i + 1)));
        i += 1;
    }
    assert(bytes@.subrange(0, bytes@.len() as int) =~= bytes@);
    out
}

/// Reads a line as a string, byte by byte.
fn read_to_crlf(reader: &mut &[u8]) -> (r: Result<String, String>)
    ensures
        r is Ok,
        r->Ok_0@ == lossy_chars(line_of(old(reader)@)),
        (*final(reader))@ == after_line(old(reader)@),
{
    let line = read_line(reader);
    Ok(lossy_string(line))
}

/// Reads the integer that a line of digits denotes.
fn line_integer(line: &[u8]) -> (n: Option<i32>)
    ensures
        n == integer_of(line@),
{
    let negative = line.len() > 0 && line[0] == 45;
    let first: usize = if line.len() > 0 && (line[0] == 43 || line[0] == 45) {
        1
    } else {
        0
    };
    let ghost digits = digits_of(line@);
    assert(digits =~= line@.subrange(first as int, line@.len() as int));
    if first == line.len() {
        return None;
    }
    let mut i: usize = first;
    let mut magnitude: u64 = 0;
    let mut too_large: bool = false;
    assert(digits.subrange(0, 0) =~= Seq::<u8>::empty());
    while i < line.len()
        invariant
            first <= i <= line.len(),
            digits == digits_of(line@),
            digits == line@.subrange(first as int, line@.len() as int),
            all_digits(digits.subrange(0, i - first)),
            !too_large ==> magnitude == decimal_value(digits.subrange(0, i - first)),
            !too_large ==> magnitude <= 0x8000_0000,
            too_large ==> decimal_value(digits.subrange(0, i - first)) > 0x8000_0000,
        decreases line.len() - i,
    {
        let b: u8 = line[i];
        assert(b == digits[i - first]);
        if b < 48 || b > 57 {
            assert(!is_digit(digits[i - first]));
            return None;
        }
        proof {
            let next = digits.subrange(0, i - first + 1);
            assert(next.drop_last() =~= digits.subrange(0, i - first));
            assert(next.last() == b);
            assert forall|j: int| 0 <= j < next.len() implies is_digit(#[trigger] next[j]) by {
                if j < i - first {
                    assert(digits.subrange(0, i - first)[j] == next[j]);
                }
            }
        }
        if !too_large {
            magnitude = magnitude * 10 + (b - 48) as u64;
            if magnitude > 0x8000_0000 {
                too_large = true;
            }
        }
        i += 1;
    }
    assert(digits.subrange(0, digits.len() as int) =~= digits);
    if too_large {
        None
    } else if negative {
        Some((0 - magnitude as i64) as i32)
    } else if magnitude <= 0x7fff_ffff {
        Some(magnitude as i32)
    } else {
        None
    }
}

/// Tells the kind of the value that the reader stands at, from its first
/// byte, and leaves the reader behind that byte.
pub fn parse_resp_type(reader: &mut &[u8]) -> (r: Result<RespType, String>)
    ensures
        match (r, resp_type_step(old(reader)@).0) {
            (Ok(t), Ok(expected)) => t == expected,
            (Err(e), Err(msg)) => e@ == msg,
            _ => false,
        },
        (*final(reader))@ == resp_type_step(old(reader)@).1,
{
    if reader.len() == 0 {
        return Err(String::from_str("parse_resp_type: Empty buffer"));
    }
    let b: u8 = reader[0];
    *reader = slice_subrange(*reader, 1, reader.len());
    if b == 43 {
        Ok(RespType::SimpleString)
    } else if b == 45 {
        Ok(RespType::Error)
    } else if b == 58 {
        Ok(RespType::Integer)
    } else if b == 36 {
        Ok(RespType::BulkString)
    } else if b == 42 {
        Ok(RespType::Array)
    } else {
        let mut msg = String::from_str("Expected one of [+, -, :, $, *], but got '");
        let c: char = if b < 128 {
            b as char
        } else {
            '\u{FFFD}'
        };
        push_char(&mut msg, c);
        msg.append("'");
        assert(msg@ =~= "Expected one of [+, -, :, $, *], but got '"@ + seq![lossy_char(b)] + "'"@);
        Err(msg)
    }
}

/// Reads a simple string: the line that the reader stands at.
pub fn parse_simple_string(reader: &mut &[u8]) -> (r: Result<String, String>)
    ensures
        r is Ok,
        r->Ok_0@ == lossy_chars(line_of(old(reader)@)),
        (*final(reader))@ == after_line(old(reader)@),
{
    read_to_crlf(reader)
}

/// Reads an integer: the line that the reader stands at, as a decimal
/// number of 32 bits.
pub fn parse_integer(reader: &mut &[u8]) -> (r: Result<i32, String>)
    ensures
        match (r, integer_step(old(reader)@).0) {
            (Ok(n), Ok(expected)) => n == expected,
            (Err(e), Err(msg)) => e@ == msg,
            _ => false,
        },
        (*final(reader))@ == integer_step(old(reader)@).1,
{
    let line = read_line(reader);
    match line_integer(line) {
        Some(n) => Ok(n),
        None => {
            let mut msg = String::from_str("'");
            msg.append(lossy_string(line).as_str());
            msg.append("' cannot be parsed as int");
            Err(msg)
        },
    }
}

/// Reads an error: the line that the reader stands at.
pub fn parse_error(reader: &mut &[u8]) -> (r: Result<String, String>)
    ensures
        r is Ok,
        r->Ok_0@ == lossy_chars(line_of(old(reader)@)),
        (*final(reader))@ == after_line(old(reader)@),
{
    read_to_crlf(reader)
}

/// Reads the carriage return and the line feed that end a bulk string.
fn consume_crlf(reader: &mut &[u8]) -> (r: Result<(), String>)
    ensures
        match (r, crlf_step(old(reader)@).0) {
            (Ok(()), Ok(())) => true,
            (Err(e), Err(msg)) => e@ == msg,
            _ => false,
        },
        (*final(reader))@ == crlf_step(old(reader)@).1,
{
    let mut last: u8 = 0;
    if reader.len() > 0 {
        last = reader[0];
        *reader = slice_subrange(*reader, 1, reader.len());
    }
    if last != 13 {
        let mut msg = String::from_str("Expected CR, but found '");
        msg.append(decimal_string(last as u64).as_str());
        msg.append("'");
        return Err(msg);
    }
    if reader.len() > 0 {
        last = reader[0];
        *reader = slice_subrange(*reader, 1, reader.len());
    }
    assert((*reader)@ =~= advance(advance(old(reader)@)));
    if last != 10 {
        let mut msg = String::from_str("Expected LF, but found '");
        msg.append(decimal_string(last as u64).as_str());
        msg.append("'");
        return Err(msg);
    }
    Ok(())
}

/// Reads a bulk string: `None` for the length -1, and otherwise the string
/// of as many bytes as the length says.
pub fn parse_bulk_string(reader: &mut &[u8]) -> (r: Result<Option<String>, String>)
    ensures
        match (r, bulk_string_step(old(reader)@).0) {
            (Ok(Some(s)), Ok(Some(expected))) => s@ == expected,
            (Ok(None), Ok(None)) => true,
            (Err(e), Err(msg)) => e@ == msg,
            _ => false,
        },
        (*final(reader))@ == bulk_string_step(old(reader)@).1,
        match r {
            Ok(Some(s)) => valid_utf8(bulk_string_bytes(old(reader)@)) ==> s@ == decode_utf8(
                bulk_string_bytes(old(reader)@),
            ),
            _ => true,
        },
{
    let length: i32 = parse_integer(reader)?;
    if length == -1 {
        return Ok(None);
    }
    if length < 0 {
        let mut msg = String::from_str("Negative length of a bulk string: -");
        msg.append(decimal_string((0 - length as i64) as u64).as_str());
        return Err(msg);
    }
    let size: usize = length as usize;
    let input: &[u8] = *reader;
    if input.len() < size {
        let mut msg = String::from_str("Expected ");
        msg.append(decimal_string(length as u64).as_str());
        msg.append(" bytes in bulk string but found only ");
        msg.append(decimal_string(input.len() as u64).as_str());
        *reader = slice_subrange(input, input.len(), input.len());
        assert((*reader)@ =~= Seq::<u8>::empty());
        return Err(msg);
    }
    let bytes = slice_subrange(input, 0, size);
    *reader = slice_subrange(input, size, input.len());
    assert((*reader)@ =~= input@.skip(size as int));
    consume_crlf(reader)?;
    Ok(Some(from_utf8_lossy(bytes)))
}

/// Reads an array of bulk strings: `None` for the length -1, and otherwise
/// as many bulk strings as the length says.
pub fn parse_array(reader: &mut &[u8]) -> (r: Result<Option<Vec<Option<String>>>, String>)
    ensures
        match (r, array_step(old(reader)@).0) {
            (Ok(Some(items)), Ok(Some(expected))) => item_texts(items@) == expected,
            (Ok(None), Ok(None)) => true,
            (Err(e), Err(msg)) => e@ == msg,
            _ => false,
        },
        (*final(reader))@ == array_step(old(reader)@).1,
{
    let length: i32 = parse_integer(reader)?;
    if length == -1 {
        return Ok(None);
    }
    if length < 0 {
        let mut msg = String::from_str("Negative length of an array: -");
        msg.append(decimal_string((0 - length as i64) as u64).as_str());
        return Err(msg);
    }
    let ghost start = (*reader)@;
    let mut elems: Vec<Option<String>> = Vec::new();
    let mut remaining: i32 = length;
    assert(item_texts(elems@) =~= Seq::<Option<Seq<char>>>::empty());
    while remaining > 0
        invariant
            0 <= remaining <= length,
            integer_step(old(reader)@).0 == Ok::<i32, Seq<char>>(length),
            integer_step(old(reader)@).1 == start,
            items_step((*reader)@, remaining as nat, item_texts(elems@)) == items_step(
                start,
                length as nat,
                Seq::empty(),
            ),
        decreases remaining,
    {
        let ghost before = item_texts(elems@);
        match parse_resp_type(reader) {
            Err(e) => {
                return Err(e);
            },
            Ok(RespType::BulkString) => match parse_bulk_string(reader) {
                Err(e) => {
                    return Err(e);
                },
                Ok(item) => {
                    elems.push(item);
                    assert(item_texts(elems@) =~= before.push(
                        match item {
                            Some(s) => Some(s@),
                            None => None,
                        },
                    ));
                },
            },
            Ok(other) => {
                let mut msg = String::from_str(
                    "Only string as currently supported in arrays, but got type ",
                );
                msg.append(resp_type_text(&other));
                return Err(msg);
            },
        }
        remaining -= 1;
    }
    Ok(Some(elems))
}

/// The strings of a vector as mathematical values.
pub open spec fn item_texts(items: Seq<Option<String>>) -> Seq<Option<Seq<char>>> {
    Seq::new(
        items.len(),
        |i: int|
            match items[i] {
                Some(s) => Some(s@),
                None => None,
            },
    )
}

fn resp_type_text(t: &RespType) -> (name: &'static str)
    ensures
        name@ == resp_type_name(*t),
{
    match t {
        RespType::SimpleString => "SimpleString",
        RespType::Error => "Error",
        RespType::Integer => "Integer",
        RespType::BulkString => "BulkString",
        RespType::Array => "Array",
    }
}

/// Lays out a simple string.
pub fn encode_simple_string(string: &str) -> (out: Vec<u8>)
    ensures
        out@ == simple_string_bytes(string.spec_bytes()),
{
    let mut out: Vec<u8> = Vec::new();
    out.push(43u8);
    let mut text = string.as_bytes_vec();
    out.append(&mut text);
    out.push(13u8);
    out.push(10u8);
    assert(out@ =~= simple_string_bytes(string.spec_bytes()));
    out
}

/// Lays out the bulk string that stands for no value.
pub fn encode_null_bulk_string() -> (out: Vec<u8>)
    ensures
        out@ == null_bulk_string_bytes(),
{
    let mut out: Vec<u8> = Vec::new();
    out.push(36u8);
    out.push(45u8);
    out.push(49u8);
    out.push(13u8);
    out.push(10u8);
    assert(out@ =~= null_bulk_string_bytes());
    out
}

/// The strings that a command is sent as: its name, then its arguments.
pub open spec fn command_elems(cmd: CommandModel) -> Seq<Seq<char>> {
    match cmd {
        CommandModel::Get(key) => seq!["GET"@, key],
        CommandModel::Put(key, value) => seq!["SET"@, key, value],
        CommandModel::Ping(None) => seq!["PING"@],
        CommandModel::Ping(Some(message)) => seq!["PING"@, message],
    }
}

/// The text of one element of an array: `$`, the number of bytes of the
/// string, the end of the line, the string, and the end of the line.
pub open spec fn element_text(elem: Seq<char>) -> Seq<char> {
    "$"@ + decimal_chars(encode_utf8(elem).len()) + "\r\n"@ + elem + "\r\n"@
}

/// The texts of the elements, one after the other.
pub open spec fn elements_text(elems: Seq<Seq<char>>) -> Seq<char>
    decreases elems.len(),
{
    if elems.len() == 0 {
        Seq::empty()
    } else {
        elements_text(elems.drop_last()) + element_text(elems.last())
    }
}

/// The text of an array of strings: `*`, the number of elements, the end of
/// the line, and the elements.
pub open spec fn array_text(elems: Seq<Seq<char>>) -> Seq<char> {
    "*"@ + decimal_chars(elems.len()) + "\r\n"@ + elements_text(elems)
}

/// The strings of a vector of string slices.
pub open spec fn slice_texts(elems: Seq<&str>) -> Seq<Seq<char>> {
    Seq::new(elems.len(), |i: int| elems[i]@)
}

/// The bytes that `count` reads of one byte each yield: the bytes of the
/// input and, once the input is used up, the byte read last, or `stale`
/// where none was read.
pub open spec fn read_bytes(input: Seq<u8>, count: nat, stale: u8) -> Seq<u8> {
    Seq::new(
        count,
        |i: int|
            if i < input.len() {
                input[i]
            } else if input.len() > 0 {
                input.last()
            } else {
                stale
            },
    )
}

/// What is left of the input after `count` reads of one byte each.
pub open spec fn after_bytes(input: Seq<u8>, count: nat) -> Seq<u8> {
    if count <= input.len() {
        input.skip(count as int)
    } else {
        Seq::empty()
    }
}

/// The number of bytes that a length asks for: none where it is negative.
pub open spec fn count_of(n: i32) -> nat {
    if n > 0 {
        n as nat
    } else {
        0
    }
}

/// One element of a command: a byte that is passed over, the length of the
/// string on a line, as many bytes read one by one, and two more bytes that
/// are passed over.
pub open spec fn element_step(input: Seq<u8>) -> (Parsed<Seq<char>>, Seq<u8>) {
    let stale: u8 = if input.len() > 0 {
        input[0]
    } else {
        0
    };
    let (length, rest) = integer_step(advance(input));
    match length {
        Err(msg) => (Err(msg), rest),
        Ok(n) => (
            Ok(lossy_chars(read_bytes(rest, count_of(n), stale))),
            advance(advance(after_bytes(rest, count_of(n)))),
        ),
    }
}

/// `count` elements, added to those in `done`.
pub open spec fn elements_step(input: Seq<u8>, count: nat, done: Seq<Seq<char>>) -> (
    Parsed<Seq<Seq<char>>>,
    Seq<u8>,
)
    decreases count,
{
    if count == 0 {
        (Ok(done), input)
    } else {
        match element_step(input).0 {
            Err(msg) => (Err(msg), element_step(input).1),
            Ok(elem) => elements_step(element_step(input).1, (count - 1) as nat, done.push(elem)),
        }
    }
}

/// The command that a list of strings stands for.
pub open spec fn command_of(elems: Seq<Seq<char>>) -> Parsed<CommandModel> {
    if elems.len() == 0 {
        Err("Expected COMMAND, but found nothing"@)
    } else if elems[0] == "GET"@ {
        if elems.len() >= 2 {
            Ok(CommandModel::Get(elems[1]))
        } else {
            Err("Expected a key behind GET"@)
        }
    } else if elems[0] == "SET"@ {
        if elems.len() >= 3 {
            Ok(CommandModel::Put(elems[1], elems[2]))
        } else {
            Err("Expected a key and a value behind SET"@)
        }
    } else if elems[0] == "PING"@ {
        if elems.len() >= 2 {
            Ok(CommandModel::Ping(Some(elems[1])))
        } else {
            Ok(CommandModel::Ping(None))
        }
    } else {
        Err("Expected COMMAND, but found '"@ + elems[0] + "'"@)
    }
}

/// A command behind the `*` of its array: the number of elements on a line,
/// the elements, and the command that they stand for.
pub open spec fn command_array_step(input: Seq<u8>) -> (Parsed<CommandModel>, Seq<u8>) {
    let (length, rest) = integer_step(input);
    match length {
        Err(msg) => (Err(msg), rest),
        Ok(n) => match elements_step(rest, count_of(n), Seq::empty()).0 {
            Err(msg) => (Err(msg), elements_step(rest, count_of(n), Seq::empty()).1),
            Ok(elems) => (command_of(elems), elements_step(rest, count_of(n), Seq::empty()).1),
        },
    }
}

/// A command: `*` and the array of its name and arguments.
pub open spec fn command_step(input: Seq<u8>) -> (Parsed<CommandModel>, Seq<u8>) {
    if input.len() == 0 {
        (Err("Empty buffer"@), input)
    } else if input[0] == 42 {
        command_array_step(input.skip(1))
    } else {
        (Err("Expected '*' but found '"@ + seq![lossy_char(input[0])] + "'"@), input.skip(1))
    }
}

/// Does the executable result show the specified command?
pub open spec fn shows_command(r: Result<Command, String>, expected: Parsed<CommandModel>) -> bool {
    match (r, expected) {
        (Ok(cmd), Ok(model)) => cmd@ == model,
        (Err(e), Err(msg)) => e@ == msg,
        _ => false,
    }
}

/// Lays out a command as an array of bulk strings.
pub fn serialize(cmd: &Command) -> (out: String)
    ensures
        out@ == array_text(command_elems(cmd@)),
{
    match cmd {
        Command::Get(key) => {
            let elems: Vec<&str> = vec!["GET", key.as_str()];
            assert(slice_texts(elems@) =~= command_elems(cmd@));
            serialize_vec(elems)
        },
        Command::Put(key, value) => {
            let elems: Vec<&str> = vec!["SET", key.as_str(), value.as_str()];
            assert(slice_texts(elems@) =~= command_elems(cmd@));
            serialize_vec(elems)
        },
        Command::Ping(mb_message) => {
            let mut elems: Vec<&str> = vec!["PING"];
            if let Some(message) = mb_message {
                elems.push(message.as_str());
            }
            assert(slice_texts(elems@) =~= command_elems(cmd@));
            serialize_vec(elems)
        },
    }
}

/// Lays out an array of bulk strings.
fn serialize_vec(elems: Vec<&str>) -> (res: String)
    ensures
        res@ == array_text(slice_texts(elems@)),
{
    let ghost texts = slice_texts(elems@);
    let mut res = String::from_str("*");
    res.append(decimal_string(elems.len() as u64).as_str());
    res.append("\r\n");
    let ghost head = res@;
    let mut i: usize = 0;
    assert(texts.take(0) =~= Seq::<Seq<char>>::empty());
    while i < elems.len()
        invariant
            i <= elems.len(),
            texts == slice_texts(elems@),
            res@ == head + elements_text(texts.take(i as int)),
        decreases elems.len() - i,
    {
        let elem: &str = elems[i];
        proof {
            assert(texts.take(i + 1).drop_last() =~= texts.take(i as int));
            assert(texts.take(i + 1).last() == elem@);
        }
        let ghost before = res@;
        res.append("$");
        let length: usize = elem.as_bytes().len();
        let digits = decimal_string(length as u64);
        assert(digits@ == decimal_chars(encode_utf8(elem@).len()));
        res.append(digits.as_str());
        res.append("\r\n");
        res.append(elem);
        res.append("\r\n");
        assert(res@ =~= before + ("$"@ + digits@ + "\r\n"@ + elem@ + "\r\n"@));
        assert(res@ =~= before + element_text(elem@));
        assert(res@ =~= head + elements_text(texts.take(i + 1)));
        i += 1;
    }
    assert(texts.take(elems@.len() as int) =~= texts);
    res
}

/// Reads a command: `*`, then the array of its name and arguments.
pub fn deserialize(reader: &mut &[u8]) -> (r: Result<Command, String>)
    ensures
        shows_command(r, command_step(old(reader)@).0),
        (*final(reader))@ == command_step(old(reader)@).1,
{
    if reader.len() == 0 {
        return Err(String::from_str("Empty buffer"));
    }
    let b: u8 = reader[0];
    *reader = slice_subrange(*reader, 1, reader.len());
    if b == 42 {
        deserialize_arr(reader)
    } else {
        let mut msg = String::from_str("Expected '*' but found '");
        let c: char = if b < 128 {
            b as char
        } else {
            '\u{FFFD}'
        };
        push_char(&mut msg, c);
        msg.append("'");
        assert(msg@ =~= "Expected '*' but found '"@ + seq![lossy_char(b)] + "'"@);
        Err(msg)
    }
}

/// Reads one element of a command.
fn read_element(reader: &mut &[u8]) -> (r: Result<String, String>)
    ensures
        shows_text(r, element_step(old(reader)@).0),
        (*final(reader))@ == element_step(old(reader)@).1,
{
    let mut last: u8 = 0;
    if reader.len() > 0 {
        last = reader[0];
        *reader = slice_subrange(*reader, 1, reader.len());
    }
    let ghost stale = last;
    assert((*reader)@ =~= advance(old(reader)@));
    let str_length: i32 = parse_integer(reader)?;
    let ghost rest = (*reader)@;
    assert(rest == integer_step(advance(old(reader)@)).1);
    let mut string = String::new();
    let mut k: i32 = 0;
    assert(string@ =~= lossy_chars(read_bytes(rest, 0, stale)));
    assert((*reader)@ =~= after_bytes(rest, 0));
    while k < str_length
        invariant
            0 <= k <= count_of(str_length),
            string@ == lossy_chars(read_bytes(rest, k as nat, stale)),
            (*reader)@ == after_bytes(rest, k as nat),
            last == (if k == 0 || rest.len() == 0 {
                stale
            } else if k <= rest.len() {
                rest[k - 1]
            } else {
                rest.last()
            }),
        decreases str_length - k,
    {
        if reader.len() > 0 {
            last = reader[0];
            *reader = slice_subrange(*reader, 1, reader.len());
        }
        let c: char = if last < 128 {
            last as char
        } else {
            '\u{FFFD}'
        };
        push_char(&mut string, c);
        assert(string@ =~= lossy_chars(read_bytes(rest, (k + 1) as nat, stale)));
        assert((*reader)@ =~= after_bytes(rest, (k + 1) as nat));
        k += 1;
    }
    assert(k == count_of(str_length));
    let ghost read = (*reader)@;
    if reader.len() > 0 {
        *reader = slice_subrange(*reader, 1, reader.len());
    }
    assert((*reader)@ =~= advance(read));
    let ghost once = (*reader)@;
    if reader.len() > 0 {
        *reader = slice_subrange(*reader, 1, reader.len());
    }
    assert((*reader)@ =~= advance(once));
    Ok(string)
}

/// The strings of a vector as mathematical values.
pub open spec fn string_texts(elems: Seq<String>) -> Seq<Seq<char>> {
    Seq::new(elems.len(), |i: int| elems[i]@)
}

/// Reads the array of a command behind its `*`.
fn deserialize_arr(reader: &mut &[u8]) -> (r: Result<Command, String>)
    ensures
        shows_command(r, command_array_step(old(reader)@).0),
        (*final(reader))@ == command_array_step(old(reader)@).1,
{
    let arr_length: i32 = parse_integer(reader)?;
    let ghost start = (*reader)@;
    let mut elems: Vec<String> = Vec::new();
    let mut remaining: i32 = if arr_length > 0 {
        arr_length
    } else {
        0
    };
    assert(string_texts(elems@) =~= Seq::<Seq<char>>::empty());
    while remaining > 0
        invariant
            0 <= remaining,
            remaining <= count_of(arr_length),
            integer_step(old(reader)@).0 == Ok::<i32, Seq<char>>(arr_length),
            integer_step(old(reader)@).1 == start,
            elements_step((*reader)@, remaining as nat, string_texts(elems@)) == elements_step(
                start,
                count_of(arr_length),
                Seq::empty(),
            ),
        decreases remaining,
    {
        let ghost before = string_texts(elems@);
        match read_element(reader) {
            Err(e) => {
                return Err(e);
            },
            Ok(string) => {
                elems.push(string);
                assert(string_texts(elems@) =~= before.push(string@));
            },
        }
        remaining -= 1;
    }
    let ghost texts = string_texts(elems@);
    proof {
        reveal_strlit("GET");
        reveal_strlit("SET");
        reveal_strlit("PING");
    }
    if elems.len() == 0 {
        return Err(String::from_str("Expected COMMAND, but found nothing"));
    }
    assert(texts[0] == elems@[0]@);
    let get = String::from_str("GET");
    let set = String::from_str("SET");
    let ping = String::from_str("PING");
    if elems[0] == get {
        if elems.len() >= 2 {
            assert(texts[1] == elems@[1]@);
            Ok(Command::Get(elems[1].clone()))
        } else {
            Err(String::from_str("Expected a key behind GET"))
        }
    } else if elems[0] == set {
        if elems.len() >= 3 {
            assert(texts[1] == elems@[1]@);
            assert(texts[2] == elems@[2]@);
            Ok(Command::Put(elems[1].clone(), elems[2].clone()))
        } else {
            Err(String::from_str("Expected a key and a value behind SET"))
        }
    } else if elems[0] == ping {
        if elems.len() >= 2 {
            assert(texts[1] == elems@[1]@);
            Ok(Command::Ping(Some(elems[1].clone())))
        } else {
            Ok(Command::Ping(None))
        }
    } else {
        let mut msg = String::from_str("Expected COMMAND, but found '");
        msg.append(elems[0].as_str());
        msg.append("'");
        Err(msg)
    }
}

} // verus!
