//! The record codec: how a `Set` or a `Remove` is laid out in a segment.
//!
//! A record is a self-delimiting JSON object. The layout is fixed here byte by
//! byte; only the string literals inside it are rendered and read by
//! `serde_json`. The decoder is stated as a specification function on bytes,
//! the executable decoder is proved to compute it, and the decoder is proved
//! to look at no byte beyond the record it returns.

use vstd::prelude::*;
use vstd::slice::slice_subrange;
use vstd::string::StringExecFns;
use crate::error::KvError;
use crate::json::{
    json_error_message, json_string_text, json_string_value, read_json_string, write_json_string,
};

verus! {

/// One unit of the log.
#[derive(Debug, PartialEq, Eq)]
pub enum Record {
    /// The record of a `set`, written as `Set` in the log: `key` holds
    /// `value` from here on; `version` counts the overwrites of the key since
    /// it was last absent.
    Put { key: String, value: String, version: u64 },
    /// The record of a `remove`: `key` is absent from here on.
    Remove { key: String },
}

/// A record as a mathematical value.
pub enum RecordModel {
    Put { key: Seq<char>, value: Seq<char>, version: u64 },
    Remove { key: Seq<char> },
}

impl RecordModel {
    /// The key that the record speaks of.
    pub open spec fn key(self) -> Seq<char> {
        match self {
            RecordModel::Put { key, .. } => key,
            RecordModel::Remove { key } => key,
        }
    }
}

impl View for Record {
    type V = RecordModel;

    open spec fn view(&self) -> RecordModel {
        match self {
            Record::Put { key, value, version } => RecordModel::Put {
                key: key@,
                value: value@,
                version: *version,
            },
            Record::Remove { key } => RecordModel::Remove { key: key@ },
        }
    }
}

/// `{"Set":{"key":`
pub open spec fn set_open() -> Seq<u8> {
    seq![123u8, 34u8, 83u8, 101u8, 116u8, 34u8, 58u8, 123u8, 34u8, 107u8, 101u8, 121u8, 34u8, 58u8]
}

/// `,"value":`
pub open spec fn value_sep() -> Seq<u8> {
    seq![44u8, 34u8, 118u8, 97u8, 108u8, 117u8, 101u8, 34u8, 58u8]
}

/// `,"version":`
pub open spec fn version_sep() -> Seq<u8> {
    seq![44u8, 34u8, 118u8, 101u8, 114u8, 115u8, 105u8, 111u8, 110u8, 34u8, 58u8]
}

/// `{"Remove":{"key":`
pub open spec fn remove_open() -> Seq<u8> {
    seq![
        123u8, 34u8, 82u8, 101u8, 109u8, 111u8, 118u8, 101u8, 34u8, 58u8, 123u8, 34u8, 107u8,
        101u8, 121u8, 34u8, 58u8,
    ]
}

/// `}}`
pub open spec fn close() -> Seq<u8> {
    seq![125u8, 125u8]
}

/// The byte `"`.
pub open spec fn quote() -> u8 {
    34u8
}

/// The byte `\`.
pub open spec fn backslash() -> u8 {
    92u8
}

/// Is `b` one of the bytes `0` to `9`?
pub open spec fn is_digit(b: u8) -> bool {
    48 <= b <= 57
}

/// The number that a run of decimal digits denotes.
pub open spec fn decimal_value(digits: Seq<u8>) -> nat
    decreases digits.len(),
{
    if digits.len() == 0 {
        0
    } else {
        decimal_value(digits.drop_last()) * 10 + (digits.last() - 48) as nat
    }
}

/// The decimal digits of `n`, without leading zeros.
pub open spec fn decimal_text(n: nat) -> Seq<u8>
    decreases n,
{
    if n < 10 {
        seq![(48 + n) as u8]
    } else {
        decimal_text(n / 10).push((48 + n % 10) as u8)
    }
}

/// The text of a record, or `None` where one of its strings has no JSON text.
pub open spec fn record_text(r: RecordModel) -> Option<Seq<u8>> {
    match r {
        RecordModel::Put { key, value, version } => match (
            json_string_text(key),
            json_string_text(value),
        ) {
            (Some(k), Some(v)) => Some(
                set_open() + k + value_sep() + v + version_sep() + decimal_text(version as nat)
                    + close(),
            ),
            _ => None,
        },
        RecordModel::Remove { key } => match json_string_text(key) {
            Some(k) => Some(remove_open() + k + close()),
            None => None,
        },
    }
}

/// Do the bytes of `frame` stand in `data` at `pos`?
pub open spec fn frame_at(data: Seq<u8>, pos: int, frame: Seq<u8>) -> bool {
    &&& 0 <= pos
    &&& pos + frame.len() <= data.len()
    &&& data.subrange(pos, pos + frame.len()) == frame
}

/// Where the string literal ends whose first byte after the opening quote is
/// at `pos`: the index after the first quote that no backslash escapes, or
/// `-1` where `data` ends before one.
pub open spec fn literal_end(data: Seq<u8>, pos: int) -> int
    decreases data.len() - pos,
{
    if pos < 0 || pos >= data.len() {
        -1
    } else if data[pos] == quote() {
        pos + 1
    } else if data[pos] == backslash() {
        if pos + 1 < data.len() {
            literal_end(data, pos + 2)
        } else {
            -1
        }
    } else {
        literal_end(data, pos + 1)
    }
}

/// The string literal at `pos`, as `serde_json` reads it, and where it ends.
pub open spec fn parse_string(data: Seq<u8>, pos: int) -> Option<(Seq<char>, int)> {
    if 0 <= pos < data.len() && data[pos] == quote() {
        let end = literal_end(data, pos + 1);
        if end < 0 {
            None
        } else {
            match json_string_value(data.subrange(pos, end)) {
                Some(s) => Some((s, end)),
                None => None,
            }
        }
    } else {
        None
    }
}

/// The index of the first byte at or after `pos` that is no digit.
pub open spec fn digits_end(data: Seq<u8>, pos: int) -> int
    decreases data.len() - pos,
{
    if 0 <= pos < data.len() && is_digit(data[pos]) {
        digits_end(data, pos + 1)
    } else {
        pos
    }
}

/// The number at `pos`: one or more digits, no leading zero unless the number
/// is `0` itself, and a value that fits in 64 bits.
pub open spec fn parse_number(data: Seq<u8>, pos: int) -> Option<(u64, int)> {
    let end = digits_end(data, pos);
    let digits = data.subrange(pos, end);
    if pos < 0 || end <= pos {
        None
    } else if data[pos] == 48 && end > pos + 1 {
        None
    } else if decimal_value(digits) > u64::MAX {
        None
    } else {
        Some((decimal_value(digits) as u64, end))
    }
}

/// The `Put` record whose opening frame stands at `pos`, and where it ends.
pub open spec fn parse_put(data: Seq<u8>, pos: int) -> Option<(RecordModel, int)> {
    match parse_string(data, pos + set_open().len()) {
        Some((key, key_end)) => if frame_at(data, key_end, value_sep()) {
            match parse_string(data, key_end + value_sep().len()) {
                Some((value, value_end)) => if frame_at(data, value_end, version_sep()) {
                    match parse_number(data, value_end + version_sep().len()) {
                        Some((version, version_end)) => if frame_at(data, version_end, close()) {
                            Some((RecordModel::Put { key, value, version }, version_end + close().len()))
                        } else {
                            None
                        },
                        None => None,
                    }
                } else {
                    None
                },
                None => None,
            }
        } else {
            None
        },
        None => None,
    }
}

/// The `Remove` record whose opening frame stands at `pos`, and where it ends.
pub open spec fn parse_remove(data: Seq<u8>, pos: int) -> Option<(RecordModel, int)> {
    match parse_string(data, pos + remove_open().len()) {
        Some((key, key_end)) => if frame_at(data, key_end, close()) {
            Some((RecordModel::Remove { key }, key_end + close().len()))
        } else {
            None
        },
        None => None,
    }
}

/// The record that starts at `pos` in `data` and the offset of the byte after
/// it, or `None` where no well-formed record starts there.
pub open spec fn parse_record(data: Seq<u8>, pos: int) -> Option<(RecordModel, int)> {
    if frame_at(data, pos, set_open()) {
        parse_put(data, pos)
    } else if frame_at(data, pos, remove_open()) {
        parse_remove(data, pos)
    } else {
        None
    }
}

/// Does the record survive being written and read back? The store writes
/// only records for which this holds.
pub open spec fn round_trips(r: RecordModel) -> bool {
    match record_text(r) {
        Some(text) => parse_record(text, 0) == Some((r, text.len() as int)),
        None => false,
    }
}

/// `d2` holds at `i + shift` what `d1` holds at `i`, for `lo <= i < hi`.
pub open spec fn agree(d1: Seq<u8>, d2: Seq<u8>, shift: int, lo: int, hi: int) -> bool {
    &&& 0 <= lo <= hi <= d1.len()
    &&& 0 <= lo + shift
    &&& hi + shift <= d2.len()
    &&& forall|i: int| lo <= i < hi ==> d2[i + shift] == #[trigger] d1[i]
}

pub proof fn lemma_literal_end_bounds(data: Seq<u8>, pos: int)
    requires
        literal_end(data, pos) >= 0,
    ensures
        pos < literal_end(data, pos) <= data.len(),
    decreases data.len() - pos,
{
    if pos < 0 || pos >= data.len() {
    } else if data[pos] == quote() {
    } else if data[pos] == backslash() {
        if pos + 1 < data.len() {
            lemma_literal_end_bounds(data, pos + 2);
        }
    } else {
        lemma_literal_end_bounds(data, pos + 1);
    }
}

pub proof fn lemma_digits_end_bounds(data: Seq<u8>, pos: int)
    requires
        0 <= pos <= data.len(),
    ensures
        pos <= digits_end(data, pos) <= data.len(),
        forall|i: int| pos <= i < digits_end(data, pos) ==> is_digit(#[trigger] data[i]),
        digits_end(data, pos) < data.len() ==> !is_digit(data[digits_end(data, pos)]),
    decreases data.len() - pos,
{
    if pos < data.len() && is_digit(data[pos]) {
        lemma_digits_end_bounds(data, pos + 1);
    }
}

/// A record that parses is not empty and lies within the data.
pub proof fn lemma_parse_record_bounds(data: Seq<u8>, pos: int)
    requires
        parse_record(data, pos) is Some,
    ensures
        0 <= pos < parse_record(data, pos).unwrap().1 <= data.len(),
{
    let end = parse_record(data, pos).unwrap().1;
    if frame_at(data, pos, set_open()) {
        let (key, key_end) = parse_string(data, pos + set_open().len()).unwrap();
        lemma_literal_end_bounds(data, pos + set_open().len() + 1);
        let (value, value_end) = parse_string(data, key_end + value_sep().len()).unwrap();
        lemma_literal_end_bounds(data, key_end + value_sep().len() + 1);
        let (version, version_end) = parse_number(data, value_end + version_sep().len()).unwrap();
        assert(end == version_end + close().len());
    } else {
        let (key, key_end) = parse_string(data, pos + remove_open().len()).unwrap();
        lemma_literal_end_bounds(data, pos + remove_open().len() + 1);
        assert(end == key_end + close().len());
    }
}

proof fn lemma_agree_narrow(d1: Seq<u8>, d2: Seq<u8>, shift: int, lo: int, hi: int, a: int, b: int)
    requires
        agree(d1, d2, shift, lo, hi),
        lo <= a <= b <= hi,
    ensures
        agree(d1, d2, shift, a, b),
        d1.subrange(a, b) == d2.subrange(a + shift, b + shift),
{
    assert(d1.subrange(a, b) =~= d2.subrange(a + shift, b + shift)) by {
        assert forall|i: int| 0 <= i < b - a implies d1.subrange(a, b)[i] == d2.subrange(
            a + shift,
            b + shift,
        )[i] by {
            assert(d2[(a + i) + shift] == d1[a + i]);
        }
    }
}

proof fn lemma_frame_local(
    d1: Seq<u8>,
    d2: Seq<u8>,
    shift: int,
    lo: int,
    hi: int,
    pos: int,
    frame: Seq<u8>,
)
    requires
        agree(d1, d2, shift, lo, hi),
        lo <= pos,
        pos + frame.len() <= hi,
    ensures
        frame_at(d1, pos, frame) == frame_at(d2, pos + shift, frame),
{
    lemma_agree_narrow(d1, d2, shift, lo, hi, pos, pos + frame.len());
}

proof fn lemma_literal_end_local(
    d1: Seq<u8>,
    d2: Seq<u8>,
    shift: int,
    lo: int,
    hi: int,
    pos: int,
)
    requires
        agree(d1, d2, shift, lo, hi),
        lo <= pos,
        0 <= literal_end(d1, pos) <= hi,
    ensures
        literal_end(d2, pos + shift) == literal_end(d1, pos) + shift,
    decreases d1.len() - pos,
{
    lemma_literal_end_bounds(d1, pos);
    assert(d2[pos + shift] == d1[pos]);
    if d1[pos] == quote() {
    } else if d1[pos] == backslash() {
        lemma_literal_end_bounds(d1, pos + 2);
        lemma_literal_end_local(d1, d2, shift, lo, hi, pos + 2);
    } else {
        lemma_literal_end_local(d1, d2, shift, lo, hi, pos + 1);
    }
}

proof fn lemma_parse_string_local(
    d1: Seq<u8>,
    d2: Seq<u8>,
    shift: int,
    lo: int,
    hi: int,
    pos: int,
)
    requires
        agree(d1, d2, shift, lo, hi),
        lo <= pos,
        parse_string(d1, pos) is Some,
        parse_string(d1, pos).unwrap().1 <= hi,
    ensures
        parse_string(d2, pos + shift) == Some(
            (parse_string(d1, pos).unwrap().0, parse_string(d1, pos).unwrap().1 + shift),
        ),
{
    let end = literal_end(d1, pos + 1);
    lemma_literal_end_bounds(d1, pos + 1);
    assert(d2[pos + shift] == d1[pos]);
    lemma_literal_end_local(d1, d2, shift, lo, hi, pos + 1);
    lemma_agree_narrow(d1, d2, shift, lo, hi, pos, end);
}

proof fn lemma_digits_end_local(
    d1: Seq<u8>,
    d2: Seq<u8>,
    shift: int,
    lo: int,
    hi: int,
    pos: int,
)
    requires
        agree(d1, d2, shift, lo, hi),
        lo <= pos,
        digits_end(d1, pos) < hi,
    ensures
        digits_end(d2, pos + shift) == digits_end(d1, pos) + shift,
    decreases d1.len() - pos,
{
    if pos < d1.len() {
        lemma_digits_end_bounds(d1, pos);
        assert(d2[pos + shift] == d1[pos]);
        if is_digit(d1[pos]) {
            lemma_digits_end_local(d1, d2, shift, lo, hi, pos + 1);
        }
    }
}

proof fn lemma_parse_number_local(
    d1: Seq<u8>,
    d2: Seq<u8>,
    shift: int,
    lo: int,
    hi: int,
    pos: int,
)
    requires
        agree(d1, d2, shift, lo, hi),
        lo <= pos,
        parse_number(d1, pos) is Some,
        parse_number(d1, pos).unwrap().1 < hi,
    ensures
        parse_number(d2, pos + shift) == Some(
            (parse_number(d1, pos).unwrap().0, parse_number(d1, pos).unwrap().1 + shift),
        ),
{
    let end = digits_end(d1, pos);
    lemma_digits_end_local(d1, d2, shift, lo, hi, pos);
    lemma_agree_narrow(d1, d2, shift, lo, hi, pos, end);
    assert(d2[pos + shift] == d1[pos]);
}

/// The decoder is local: where a record parses in `d1` and `d2` holds the
/// same bytes over the extent of that record, shifted by `shift`, the same
/// record parses in `d2` at the shifted place, whatever else `d2` holds.
pub proof fn lemma_parse_record_local(d1: Seq<u8>, d2: Seq<u8>, shift: int, pos: int)
    requires
        parse_record(d1, pos) is Some,
        agree(d1, d2, shift, pos, parse_record(d1, pos).unwrap().1),
    ensures
        parse_record(d2, pos + shift) == Some(
            (parse_record(d1, pos).unwrap().0, parse_record(d1, pos).unwrap().1 + shift),
        ),
{
    let hi = parse_record(d1, pos).unwrap().1;
    lemma_parse_record_bounds(d1, pos);
    if frame_at(d1, pos, set_open()) {
        let key_at = pos + set_open().len();
        let (key, key_end) = parse_string(d1, key_at).unwrap();
        lemma_literal_end_bounds(d1, key_at + 1);
        let value_at = key_end + value_sep().len();
        let (value, value_end) = parse_string(d1, value_at).unwrap();
        lemma_literal_end_bounds(d1, value_at + 1);
        let version_at = value_end + version_sep().len();
        let (version, version_end) = parse_number(d1, version_at).unwrap();
        lemma_digits_end_bounds(d1, version_at);
        assert(hi == version_end + close().len());
        lemma_frame_local(d1, d2, shift, pos, hi, pos, set_open());
        lemma_parse_string_local(d1, d2, shift, pos, hi, key_at);
        lemma_frame_local(d1, d2, shift, pos, hi, key_end, value_sep());
        lemma_parse_string_local(d1, d2, shift, pos, hi, value_at);
        lemma_frame_local(d1, d2, shift, pos, hi, value_end, version_sep());
        lemma_parse_number_local(d1, d2, shift, pos, hi, version_at);
        lemma_frame_local(d1, d2, shift, pos, hi, version_end, close());
    } else {
        let key_at = pos + remove_open().len();
        let (key, key_end) = parse_string(d1, key_at).unwrap();
        lemma_literal_end_bounds(d1, key_at + 1);
        assert(hi == key_end + close().len());
        lemma_frame_local(d1, d2, shift, pos, hi, pos, set_open());
        lemma_frame_local(d1, d2, shift, pos, hi, pos, remove_open());
        lemma_parse_string_local(d1, d2, shift, pos, hi, key_at);
        lemma_frame_local(d1, d2, shift, pos, hi, key_end, close());
    }
}

/// Does the string survive being written and read back? `serde_json` has
/// a text for it, the text is one string literal from its first byte to its
/// last, and the literal reads back as the string.
pub open spec fn string_round_trips(s: Seq<char>) -> bool {
    match json_string_text(s) {
        Some(text) => {
            &&& text.len() >= 2
            &&& text[0] == quote()
            &&& literal_end(text, 1) == text.len()
            &&& json_string_value(text) == Some(s)
        },
        None => false,
    }
}

/// The digits that a number is written in: at least one, all of them
/// digits, none of them a leading zero, and they denote the number.
pub proof fn lemma_decimal_text(n: nat)
    ensures
        decimal_text(n).len() >= 1,
        forall|i: int| 0 <= i < decimal_text(n).len() ==> is_digit(#[trigger] decimal_text(n)[i]),
        decimal_text(n)[0] == 48 ==> decimal_text(n).len() == 1,
        decimal_value(decimal_text(n)) == n,
    decreases n,
{
    let all = decimal_text(n);
    if n >= 10 {
        lemma_decimal_text(n / 10);
        let head = decimal_text(n / 10);
        assert(all.drop_last() =~= head);
        assert(all.last() == (48 + n % 10) as u8);
        assert(decimal_value(all) == decimal_value(all.drop_last()) * 10 + (all.last() - 48) as nat);
        assert forall|i: int| 0 <= i < all.len() implies is_digit(#[trigger] all[i]) by {
            if i < head.len() {
                assert(all[i] == head[i]);
            }
        }
        assert(all[0] == head[0]);
        if head[0] == 48 {
            assert(decimal_value(head.drop_last()) == 0) by {
                assert(head.drop_last() =~= Seq::<u8>::empty());
            }
            assert(decimal_value(head) == decimal_value(head.drop_last()) * 10 + (head.last()
                - 48) as nat);
            assert(false);
        }
    } else {
        assert(all.drop_last() =~= Seq::<u8>::empty());
        assert(decimal_value(all.drop_last()) == 0);
        assert(decimal_value(all) == decimal_value(all.drop_last()) * 10 + (all.last() - 48) as nat);
    }
}

/// Where a run of digits ends.
proof fn lemma_digits_run(data: Seq<u8>, pos: int, len: int)
    requires
        0 <= pos,
        0 <= len,
        pos + len <= data.len(),
        forall|i: int| pos <= i < pos + len ==> is_digit(#[trigger] data[i]),
        pos + len < data.len() ==> !is_digit(data[pos + len]),
    ensures
        digits_end(data, pos) == pos + len,
    decreases len,
{
    if len > 0 {
        assert(is_digit(data[pos]));
        lemma_digits_run(data, pos + 1, len - 1);
    }
}

/// The text of a string that survives being written and read back is read
/// as that string wherever it stands.
proof fn lemma_string_parses(data: Seq<u8>, pos: int, s: Seq<char>)
    requires
        string_round_trips(s),
        0 <= pos,
        pos + json_string_text(s).unwrap().len() <= data.len(),
        data.subrange(pos, pos + json_string_text(s).unwrap().len()) == json_string_text(
            s,
        ).unwrap(),
    ensures
        parse_string(data, pos) == Some((s, pos + json_string_text(s).unwrap().len())),
{
    let text = json_string_text(s).unwrap();
    assert(agree(text, data, pos, 0, text.len() as int)) by {
        assert forall|i: int| 0 <= i < text.len() implies data[i + pos] == #[trigger] text[i] by {
            assert(data.subrange(pos, pos + text.len())[i] == data[pos + i]);
        }
    }
    assert(data[pos] == text[0]);
    lemma_literal_end_local(text, data, pos, 0, text.len() as int, 1);
}

/// A part of a text stands in the text where the parts before it end.
proof fn lemma_part(before: Seq<u8>, part: Seq<u8>, after: Seq<u8>)
    ensures
        (before + part + after).subrange(
            before.len() as int,
            (before.len() + part.len()) as int,
        ) == part,
        (before + part + after).len() == before.len() + part.len() + after.len(),
{
    assert((before + part + after).subrange(
        before.len() as int,
        (before.len() + part.len()) as int,
    ) =~= part);
}

/// The text of a `Set` whose strings survive being written and read back
/// is read as that `Set`.
proof fn lemma_put_round_trips(key: Seq<char>, value: Seq<char>, version: u64)
    requires
        string_round_trips(key),
        string_round_trips(value),
    ensures
        round_trips(RecordModel::Put { key, value, version }),
{
    let r = RecordModel::Put { key, value, version };
    let text = record_text(r).unwrap();
    let k = json_string_text(key).unwrap();
    let v = json_string_text(value).unwrap();
    let d = decimal_text(version as nat);
    lemma_decimal_text(version as nat);
    let key_at = set_open().len() as int;
    let key_end = key_at + k.len();
    let value_at = key_end + value_sep().len();
    let value_end = value_at + v.len();
    let version_at = value_end + version_sep().len();
    let version_end = version_at + d.len();
    let empty = Seq::<u8>::empty();
    assert(text.subrange(0, key_at) == set_open() && text.len() == version_end + 2) by {
        let after = k + value_sep() + v + version_sep() + d + close();
        assert(text =~= empty + set_open() + after);
        lemma_part(empty, set_open(), after);
    }
    assert(text.subrange(key_at, key_end) == k) by {
        let after = value_sep() + v + version_sep() + d + close();
        assert(text =~= set_open() + k + after);
        lemma_part(set_open(), k, after);
    }
    assert(text.subrange(key_end, value_at) == value_sep()) by {
        let before = set_open() + k;
        let after = v + version_sep() + d + close();
        assert(text =~= before + value_sep() + after);
        lemma_part(before, value_sep(), after);
    }
    assert(text.subrange(value_at, value_end) == v) by {
        let before = set_open() + k + value_sep();
        let after = version_sep() + d + close();
        assert(text =~= before + v + after);
        lemma_part(before, v, after);
    }
    assert(text.subrange(value_end, version_at) == version_sep()) by {
        let before = set_open() + k + value_sep() + v;
        let after = d + close();
        assert(text =~= before + version_sep() + after);
        lemma_part(before, version_sep(), after);
    }
    assert(text.subrange(version_at, version_end) == d) by {
        let before = set_open() + k + value_sep() + v + version_sep();
        assert(text =~= before + d + close());
        lemma_part(before, d, close());
    }
    assert(text.subrange(version_end, version_end + 2) == close()) by {
        let before = set_open() + k + value_sep() + v + version_sep() + d;
        assert(text =~= before + close() + empty);
        lemma_part(before, close(), empty);
    }
    assert(parse_string(text, key_at) == Some((key, key_end))) by {
        lemma_string_parses(text, key_at, key);
    }
    assert(parse_string(text, value_at) == Some((value, value_end))) by {
        lemma_string_parses(text, value_at, value);
    }
    assert(parse_number(text, version_at) == Some((version, version_end))) by {
        assert forall|i: int| version_at <= i < version_end implies is_digit(#[trigger] text[i]) by {
            assert(text.subrange(version_at, version_end)[i - version_at] == text[i]);
        }
        assert(text[version_end] == 125) by {
            assert(text.subrange(version_end, version_end + 2)[0] == text[version_end]);
        }
        lemma_digits_run(text, version_at, d.len() as int);
        assert(text[version_at] == d[0]) by {
            assert(text.subrange(version_at, version_end)[0] == text[version_at]);
        }
    }
    assert(frame_at(text, 0, set_open()));
    assert(frame_at(text, key_end, value_sep()));
    assert(frame_at(text, value_end, version_sep()));
    assert(frame_at(text, version_end, close()));
    assert(parse_put(text, 0) == Some((r, text.len() as int)));
}

/// The text of a `Remove` whose key survives being written and read back
/// is read as that `Remove`.
proof fn lemma_remove_round_trips(key: Seq<char>)
    requires
        string_round_trips(key),
    ensures
        round_trips(RecordModel::Remove { key }),
{
    let r = RecordModel::Remove { key };
    let text = record_text(r).unwrap();
    let k = json_string_text(key).unwrap();
    let key_at = remove_open().len() as int;
    let key_end = key_at + k.len();
    let empty = Seq::<u8>::empty();
    assert(text.subrange(0, key_at) == remove_open() && text.len() == key_end + 2) by {
        assert(text =~= empty + remove_open() + (k + close()));
        lemma_part(empty, remove_open(), k + close());
    }
    assert(text.subrange(key_at, key_end) == k) by {
        lemma_part(remove_open(), k, close());
    }
    assert(text.subrange(key_end, key_end + 2) == close()) by {
        assert(text =~= remove_open() + k + close() + empty);
        lemma_part(remove_open() + k, close(), empty);
    }
    assert(parse_string(text, key_at) == Some((key, key_end))) by {
        lemma_string_parses(text, key_at, key);
    }
    assert(!frame_at(text, 0, set_open())) by {
        assert(text.subrange(0, key_at)[2] == text[2]);
        assert(remove_open()[2] == 82);
        if frame_at(text, 0, set_open()) {
            assert(text.subrange(0, 14)[2] == text[2]);
            assert(set_open()[2] == 83);
        }
    }
    assert(frame_at(text, 0, remove_open()));
    assert(frame_at(text, key_end, close()));
    assert(parse_remove(text, 0) == Some((r, text.len() as int)));
}

/// Success is owed to every record whose strings survive being written and
/// read back: such a record survives it too, whatever its version.
pub proof fn lemma_round_trips(r: RecordModel)
    requires
        string_round_trips(r.key()),
        r is Put ==> string_round_trips(r->Put_value),
    ensures
        round_trips(r),
{
    match r {
        RecordModel::Put { key, value, version } => {
            lemma_put_round_trips(key, value, version);
        },
        RecordModel::Remove { key } => {
            lemma_remove_round_trips(key);
        },
    }
}

/// The error of bytes that are no record: a `SerializationError` whose
/// cause is `what`.
fn serialization_error(what: &str) -> (e: KvError)
    ensures
        e matches KvError::SerializationError { cause } && cause@ == what@,
{
    KvError::SerializationError { cause: String::from_str(what) }
}

/// The bytes `{"Set":{"key":`.
fn frame_set_open() -> (f: &'static [u8])
    ensures
        f@ == set_open(),
{
    broadcast use vstd::string::is_ascii_spec_bytes;

    proof {
        reveal_strlit("{\"Set\":{\"key\":");
    }
    let text: &'static str = "{\"Set\":{\"key\":";
    assert(vstd::string::is_ascii(text));
    let f = text.as_bytes();
    assert(f@ =~= set_open());
    f
}

/// The bytes `,"value":`.
fn frame_value_sep() -> (f: &'static [u8])
    ensures
        f@ == value_sep(),
{
    broadcast use vstd::string::is_ascii_spec_bytes;

    proof {
        reveal_strlit(",\"value\":");
    }
    let text: &'static str = ",\"value\":";
    assert(vstd::string::is_ascii(text));
    let f = text.as_bytes();
    assert(f@ =~= value_sep());
    f
}

/// The bytes `,"version":`.
fn frame_version_sep() -> (f: &'static [u8])
    ensures
        f@ == version_sep(),
{
    broadcast use vstd::string::is_ascii_spec_bytes;

    proof {
        reveal_strlit(",\"version\":");
    }
    let text: &'static str = ",\"version\":";
    assert(vstd::string::is_ascii(text));
    let f = text.as_bytes();
    assert(f@ =~= version_sep());
    f
}

/// The bytes `{"Remove":{"key":`.
fn frame_remove_open() -> (f: &'static [u8])
    ensures
        f@ == remove_open(),
{
    broadcast use vstd::string::is_ascii_spec_bytes;

    proof {
        reveal_strlit("{\"Remove\":{\"key\":");
    }
    let text: &'static str = "{\"Remove\":{\"key\":";
    assert(vstd::string::is_ascii(text));
    let f = text.as_bytes();
    assert(f@ =~= remove_open());
    f
}

/// The bytes `}}`.
fn frame_close() -> (f: &'static [u8])
    ensures
        f@ == close(),
{
    broadcast use vstd::string::is_ascii_spec_bytes;

    proof {
        reveal_strlit("}}");
    }
    let text: &'static str = "}}";
    assert(vstd::string::is_ascii(text));
    let f = text.as_bytes();
    assert(f@ =~= close());
    f
}

/// Appends the bytes of `frame` to `out`.
fn push_frame(out: &mut Vec<u8>, frame: &[u8])
    ensures
        final(out)@ == old(out)@ + frame@,
{
    let mut i: usize = 0;
    while i < frame.len()
        invariant
            i <= frame.len(),
            out@ == old(out)@ + frame@.subrange(0, i as int),
        decreases frame.len() - i,
    {
        out.push(frame[i]);
        assert(out@ =~= old(out)@ + frame@.subrange(0, i + 1));
        i += 1;
    }
    assert(frame@.subrange(0, frame@.len() as int) =~= frame@);
}

/// Tests whether `frame` stands in `data` at `pos`.
fn match_frame(data: &[u8], pos: usize, frame: &[u8]) -> (ok: bool)
    ensures
        ok == frame_at(data@, pos as int, frame@),
{
    if frame.len() > data.len() || pos > data.len() - frame.len() {
        return false;
    }
    let mut i: usize = 0;
    while i < frame.len()
        invariant
            i <= frame.len(),
            pos + frame.len() <= data.len(),
            forall|j: int| 0 <= j < i ==> data@[pos + j] == frame@[j],
        decreases frame.len() - i,
    {
        if data[pos + i] != frame[i] {
            proof {
                let sub = data@.subrange(pos as int, pos + frame@.len());
                assert(sub[i as int] == data@[pos + i]);
            }
            return false;
        }
        i += 1;
    }
    assert(data@.subrange(pos as int, pos + frame@.len()) =~= frame@);
    true
}

/// Finds the end of the string literal whose body starts at `pos`.
fn find_literal_end(data: &[u8], pos: usize) -> (end: Option<usize>)
    ensures
        match end {
            Some(e) => literal_end(data@, pos as int) == e as int,
            None => literal_end(data@, pos as int) < 0,
        },
{
    let mut i: usize = pos;
    while i < data.len()
        invariant
            pos <= i,
            literal_end(data@, pos as int) == literal_end(data@, i as int),
        decreases data.len() - i,
    {
        let b: u8 = data[i];
        if b == 34 {
            return Some(i + 1);
        } else if b == 92 {
            if i + 1 < data.len() {
                i += 2;
            } else {
                return None;
            }
        } else {
            i += 1;
        }
    }
    None
}

/// Reads the string literal at `pos`.
fn decode_string(data: &[u8], pos: usize) -> (out: Result<(String, usize), KvError>)
    ensures
        match out {
            Ok((s, end)) => parse_string(data@, pos as int) == Some((s@, end as int)),
            Err(e) => parse_string(data@, pos as int) is None && e is SerializationError,
        },
{
    if pos >= data.len() || data[pos] != 34 {
        return Err(serialization_error("expected a string"));
    }
    match find_literal_end(data, pos + 1) {
        None => Err(serialization_error("unterminated string")),
        Some(end) => {
            proof {
                lemma_literal_end_bounds(data@, pos + 1);
            }
            match read_json_string(slice_subrange(data, pos, end)) {
                Ok(s) => Ok((s, end)),
                Err(e) => Err(KvError::SerializationError { cause: json_error_message(&e) }),
            }
        },
    }
}

/// Reads the number at `pos`.
fn decode_number(data: &[u8], pos: usize) -> (out: Option<(u64, usize)>)
    ensures
        match out {
            Some((n, end)) => parse_number(data@, pos as int) == Some((n, end as int)),
            None => parse_number(data@, pos as int) is None,
        },
{
    if pos >= data.len() {
        return None;
    }
    let mut i: usize = pos;
    let mut value: u64 = 0;
    let mut overflow: bool = false;
    assert(data@.subrange(pos as int, pos as int) =~= Seq::<u8>::empty());
    while i < data.len() && data[i] >= 48 && data[i] <= 57
        invariant
            pos <= i,
            i <= data.len(),
            digits_end(data@, pos as int) == digits_end(data@, i as int),
            overflow ==> decimal_value(data@.subrange(pos as int, i as int)) > u64::MAX,
            !overflow ==> value == decimal_value(data@.subrange(pos as int, i as int)),
        decreases data.len() - i,
    {
        let d: u64 = (data[i] - 48) as u64;
        proof {
            let next = data@.subrange(pos as int, i + 1);
            assert(next.drop_last() =~= data@.subrange(pos as int, i as int));
            assert(next.last() == data@[i as int]);
        }
        if !overflow {
            if value > (u64::MAX - d) / 10 {
                overflow = true;
            } else {
                value = value * 10 + d;
            }
        }
        i += 1;
    }
    if i == pos {
        None
    } else if data[pos] == 48 && i > pos + 1 {
        None
    } else if overflow {
        None
    } else {
        Some((value, i))
    }
}

/// Decodes the record that starts at `pos` in `data`. Returns the record and
/// the offset of the byte after it, or a `SerializationError` where no
/// well-formed record starts there.
pub fn decode_record(data: &[u8], pos: usize) -> (out: Result<(Record, usize), KvError>)
    ensures
        match out {
            Ok((r, end)) => parse_record(data@, pos as int) == Some((r@, end as int)),
            Err(e) => parse_record(data@, pos as int) is None && e is SerializationError,
        },
{
    let set_open = frame_set_open();
    let value_sep = frame_value_sep();
    let version_sep = frame_version_sep();
    let remove_open = frame_remove_open();
    let close = frame_close();
    assert(set_open@.len() == 14 && value_sep@.len() == 9 && version_sep@.len() == 11);
    assert(remove_open@.len() == 17 && close@.len() == 2);
    let len: usize = data.len();
    assert(data@.len() == len);
    if match_frame(data, pos, set_open) {
        let (key, key_end) = decode_string(data, pos + set_open.len())?;
        proof {
            lemma_literal_end_bounds(data@, pos + 15);
        }
        if !match_frame(data, key_end, value_sep) {
            return Err(serialization_error("expected the value of a record"));
        }
        let (value, value_end) = decode_string(data, key_end + value_sep.len())?;
        if !match_frame(data, value_end, version_sep) {
            return Err(serialization_error("expected the version of a record"));
        }
        match decode_number(data, value_end + version_sep.len()) {
            None => Err(serialization_error("expected a version number")),
            Some((version, version_end)) => {
                if !match_frame(data, version_end, close) {
                    return Err(serialization_error("expected the end of a record"));
                }
                Ok((Record::Put { key, value, version }, version_end + close.len()))
            },
        }
    } else if match_frame(data, pos, remove_open) {
        let (key, key_end) = decode_string(data, pos + remove_open.len())?;
        if !match_frame(data, key_end, close) {
            return Err(serialization_error("expected the end of a record"));
        }
        Ok((Record::Remove { key }, key_end + close.len()))
    } else {
        Err(serialization_error("expected a record"))
    }
}

/// Appends the decimal digits of `n` to `out`.
fn push_decimal(out: &mut Vec<u8>, n: u64)
    ensures
        final(out)@ == old(out)@ + decimal_text(n as nat),
    decreases n,
{
    if n >= 10 {
        push_decimal(out, n / 10);
    }
    out.push(48 + (n % 10) as u8);
}

/// Appends the JSON text of `s` to `out`, or leaves `out` as it is where
/// `serde_json` reports an error.
fn push_string(out: &mut Vec<u8>, s: &str) -> (r: Result<(), KvError>)
    ensures
        match r {
            Ok(()) => json_string_text(s@) is Some && final(out)@ == old(out)@
                + json_string_text(s@).unwrap(),
            Err(e) => json_string_text(s@) is None && e is SerializationError && final(out)@
                == old(out)@,
        },
{
    match write_json_string(s) {
        Ok(mut text) => {
            out.append(&mut text);
            Ok(())
        },
        Err(e) => Err(KvError::SerializationError { cause: json_error_message(&e) }),
    }
}

/// Lays out the text of a record.
fn render_record(r: &Record) -> (out: Result<Vec<u8>, KvError>)
    ensures
        match out {
            Ok(text) => record_text(r@) == Some(text@),
            Err(e) => record_text(r@) is None && e is SerializationError,
        },
{
    let mut out: Vec<u8> = Vec::new();
    match r {
        Record::Put { key, value, version } => {
            push_frame(&mut out, frame_set_open());
            push_string(&mut out, key.as_str())?;
            push_frame(&mut out, frame_value_sep());
            push_string(&mut out, value.as_str())?;
            push_frame(&mut out, frame_version_sep());
            push_decimal(&mut out, *version);
        },
        Record::Remove { key } => {
            push_frame(&mut out, frame_remove_open());
            push_string(&mut out, key.as_str())?;
        },
    }
    push_frame(&mut out, frame_close());
    assert(out@ =~= record_text(r@).unwrap());
    Ok(out)
}

/// Compares two records field by field.
fn same_record(a: &Record, b: &Record) -> (same: bool)
    ensures
        same == (a@ == b@),
{
    match (a, b) {
        (
            Record::Put { key: ka, value: va, version: na },
            Record::Put { key: kb, value: vb, version: nb },
        ) => *ka == *kb && *va == *vb && *na == *nb,
        (Record::Remove { key: ka }, Record::Remove { key: kb }) => *ka == *kb,
        _ => false,
    }
}

/// Encodes a record for the log and reads the text back before handing it
/// out. The text is returned exactly when it decodes to the record it was
/// made from, so nothing is ever written that would not be read again; every
/// other record is refused with a `SerializationError`.
pub fn encode_record(r: &Record) -> (out: Result<Vec<u8>, KvError>)
    ensures
        match out {
            Ok(text) => round_trips(r@) && record_text(r@) == Some(text@),
            Err(e) => !round_trips(r@) && e is SerializationError,
        },
{
    let text = render_record(r)?;
    match decode_record(text.as_slice(), 0) {
        Ok((back, end)) => {
            if end == text.len() && same_record(&back, r) {
                Ok(text)
            } else {
                Err(serialization_error("the record does not read back as it was written"))
            }
        },
        Err(e) => Err(e),
    }
}

} // verus!
