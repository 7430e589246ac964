//! The names of the files in the store's directory: `db.active` for the
//! active segment and the counter followed by `.immutable` for a rotated one.

use vstd::prelude::*;
use vstd::string::{StrSliceExecFns, StringExecFns};
use crate::error::KvError;
use crate::record::decimal_value;

verus! {

/// The name of the active segment.
pub open spec fn active_name() -> Seq<char> {
    "db.active"@
}

/// The extension of an immutable segment, with its dot.
pub open spec fn immutable_suffix() -> Seq<char> {
    ".immutable"@
}

/// Is `name` the name of an immutable segment, that is: does it end in
/// `.immutable`, with something before the dot?
pub open spec fn is_immutable_name(name: Seq<char>) -> bool {
    name.len() > immutable_suffix().len() && name.subrange(
        name.len() - immutable_suffix().len(),
        name.len() as int,
    ) == immutable_suffix()
}

/// The index of the last dot of `name` before position `end`, or `-1`.
pub open spec fn last_dot(name: Seq<char>, end: int) -> int
    decreases end,
{
    if end <= 0 || end > name.len() {
        -1
    } else if name[end - 1] == '.' {
        end - 1
    } else {
        last_dot(name, end - 1)
    }
}

/// The stem of a file name: what stands before its last dot, or the whole
/// name where it has no dot or only a leading one.
pub open spec fn file_stem(name: Seq<char>) -> Seq<char> {
    let dot = last_dot(name, name.len() as int);
    if dot <= 0 {
        name
    } else {
        name.subrange(0, dot)
    }
}

/// Is `c` one of the characters `0` to `9`?
pub open spec fn is_digit_char(c: char) -> bool {
    48 <= c as u32 <= 57
}

/// The characters of `s` as bytes.
pub open spec fn as_digits(s: Seq<char>) -> Seq<u8> {
    Seq::new(s.len(), |i: int| (s[i] as u32) as u8)
}

/// Is every character of `s` a digit?
pub open spec fn all_digit_chars(s: Seq<char>) -> bool {
    forall|i: int| 0 <= i < s.len() ==> is_digit_char(#[trigger] s[i])
}

/// `s` without the `+` that may stand at its start.
pub open spec fn without_sign(s: Seq<char>) -> Seq<char> {
    if s.len() > 0 && s[0] == '+' {
        s.subrange(1, s.len() as int)
    } else {
        s
    }
}

/// The number that `s` denotes as an unsigned integer of 64 bits: an
/// optional `+`, then one or more decimal digits, with a value that fits.
pub open spec fn parse_counter(s: Seq<char>) -> Option<u64> {
    let digits = without_sign(s);
    if digits.len() == 0 {
        None
    } else if !all_digit_chars(digits) {
        None
    } else if decimal_value(as_digits(digits)) > u64::MAX {
        None
    } else {
        Some(decimal_value(as_digits(digits)) as u64)
    }
}

/// The counter in the name of a segment file: the number that its stem denotes.
pub open spec fn counter_of(name: Seq<char>) -> Option<u64> {
    parse_counter(file_stem(name))
}

/// The decimal digits of `n` as characters, without leading zeros.
pub open spec fn decimal_chars(n: nat) -> Seq<char>
    decreases n,
{
    if n < 10 {
        seq![((48 + n) as u8) as char]
    } else {
        decimal_chars(n / 10).push(((48 + n % 10) as u8) as char)
    }
}

/// The name of the immutable segment with the given counter.
pub open spec fn segment_name(counter: u64) -> Seq<char> {
    decimal_chars(counter as nat) + immutable_suffix()
}

/// Tells whether a file of the directory is an immutable segment.
pub fn is_immutable_file(name: &str) -> (yes: bool)
    ensures
        yes == is_immutable_name(name@),
{
    proof {
        reveal_strlit(".immutable");
    }
    let suffix = ".immutable";
    let len = name.unicode_len();
    if len <= 10 {
        return false;
    }
    let from: usize = len - 10;
    let mut i: usize = 0;
    while i < 10
        invariant
            i <= 10,
            len == name@.len(),
            from == len - 10,
            suffix@ == immutable_suffix(),
            suffix@.len() == 10,
            forall|j: int| 0 <= j < i ==> name@[from + j] == suffix@[j],
        decreases 10 - i,
    {
        if name.get_char(from + i) != suffix.get_char(i) {
            proof {
                let tail = name@.subrange(name@.len() - 10, name@.len() as int);
                assert(tail[i as int] == name@[from + i]);
            }
            return false;
        }
        i += 1;
    }
    assert(name@.subrange(name@.len() - 10, name@.len() as int) =~= suffix@);
    true
}

/// Finds the last dot of `name`.
fn find_last_dot(name: &str, len: usize) -> (dot: Option<usize>)
    requires
        len == name@.len(),
    ensures
        match dot {
            Some(d) => last_dot(name@, len as int) == d && d < len,
            None => last_dot(name@, len as int) == -1,
        },
{
    let mut end: usize = len;
    while end > 0
        invariant
            end <= len,
            len == name@.len(),
            last_dot(name@, len as int) == last_dot(name@, end as int),
        decreases end,
    {
        if name.get_char(end - 1) == '.' {
            return Some(end - 1);
        }
        end -= 1;
    }
    None
}

/// The error of a name that breaks the rules: a `Consistency` error whose
/// message is `what`, which says which rule, with the name behind it.
pub(crate) fn consistency_error(what: &str, name: &str) -> (e: KvError)
    ensures
        e matches KvError::Consistency(msg) && msg@ == what@ + name@,
{
    let mut msg = String::from_str(what);
    msg.append(name);
    KvError::Consistency(msg)
}

/// Reads the number that the stem of a name denotes, and the length of the
/// stem.
fn read_counter(name: &str) -> (out: (Option<u64>, usize))
    ensures
        out.0 == counter_of(name@),
        out.1 <= name@.len(),
        file_stem(name@) == name@.subrange(0, out.1 as int),
{
    let len = name.unicode_len();
    let stem_len: usize = match find_last_dot(name, len) {
        Some(d) => if d == 0 {
            len
        } else {
            d
        },
        None => len,
    };
    let ghost stem = file_stem(name@);
    assert(stem =~= name@.subrange(0, stem_len as int));
    let first: usize = if stem_len > 0 && name.get_char(0) == '+' {
        1
    } else {
        0
    };
    let ghost digits = stem.subrange(first as int, stem.len() as int);
    assert(first == 0 ==> digits =~= stem);
    if first == stem_len {
        return (None, stem_len);
    }
    let mut i: usize = first;
    let mut value: u64 = 0;
    assert(as_digits(digits.subrange(0, 0)) =~= Seq::<u8>::empty());
    while i < stem_len
        invariant
            first <= i <= stem_len,
            stem_len <= name@.len(),
            stem == name@.subrange(0, stem_len as int),
            stem == file_stem(name@),
            digits == without_sign(stem),
            digits == stem.subrange(first as int, stem.len() as int),
            forall|j: int| 0 <= j < i - first ==> is_digit_char(#[trigger] digits[j]),
            value == decimal_value(as_digits(digits.subrange(0, i - first))),
        decreases stem_len - i,
    {
        let c = name.get_char(i);
        assert(c == digits[i - first]);
        if !(c >= '0' && c <= '9') {
            assert(!is_digit_char(digits[i - first]));
            return (None, stem_len);
        }
        let d: u64 = (c as u32 - 48) as u64;
        proof {
            let next = as_digits(digits.subrange(0, i - first + 1));
            assert(next.drop_last() =~= as_digits(digits.subrange(0, i - first)));
            assert(next.last() == (c as u32) as u8);
            assert(as_digits(digits).subrange(0, i - first + 1) =~= next);
        }
        if value > (u64::MAX - d) / 10 {
            proof {
                if all_digit_chars(digits) {
                    assert forall|j: int| 0 <= j < as_digits(digits).len() implies #[trigger] as_digits(
                        digits,
                    )[j] >= 48 by {
                        assert(is_digit_char(digits[j]));
                    }
                    lemma_decimal_value_grows(as_digits(digits), i - first + 1);
                }
            }
            return (None, stem_len);
        }
        value = value * 10 + d;
        i += 1;
    }
    assert(digits.subrange(0, digits.len() as int) =~= digits);
    (Some(value), stem_len)
}

/// The message of a name whose stem denotes no counter.
pub open spec fn invalid_name_message(name: Seq<char>) -> Seq<char> {
    "Invalid file name: "@ + file_stem(name)
}

/// Reads the counter out of the name of a segment file. The stem of the
/// name must denote an unsigned integer of 64 bits; any other name is
/// refused with a `Consistency` error that names the stem.
pub fn extract_counter(name: &str) -> (out: Result<u64, KvError>)
    ensures
        match out {
            Ok(n) => counter_of(name@) == Some(n),
            Err(KvError::Consistency(msg)) => counter_of(name@) is None && msg@
                == invalid_name_message(name@),
            Err(_) => false,
        },
{
    match read_counter(name) {
        (Some(n), _) => Ok(n),
        (None, stem_len) => {
            let mut msg = String::from_str("Invalid file name: ");
            msg.append(name.substring_char(0, stem_len));
            Err(KvError::Consistency(msg))
        },
    }
}


/// The value of a run of digits is at least the value of each of its prefixes.
pub proof fn lemma_decimal_value_grows(digits: Seq<u8>, k: int)
    requires
        0 <= k <= digits.len(),
        forall|i: int| 0 <= i < digits.len() ==> #[trigger] digits[i] >= 48,
    ensures
        decimal_value(digits.subrange(0, k)) <= decimal_value(digits),
    decreases digits.len() - k,
{
    if k == digits.len() {
        assert(digits.subrange(0, k) =~= digits);
    } else {
        lemma_decimal_value_grows(digits, k + 1);
        assert(digits.subrange(0, k + 1).drop_last() =~= digits.subrange(0, k));
    }
}

/// The one-character text of a digit.
fn digit_text(d: u64) -> (text: &'static str)
    requires
        d < 10,
    ensures
        text@ == seq![((48 + d) as u8) as char],
{
    proof {
        reveal_strlit("0");
        reveal_strlit("1");
        reveal_strlit("2");
        reveal_strlit("3");
        reveal_strlit("4");
        reveal_strlit("5");
        reveal_strlit("6");
        reveal_strlit("7");
        reveal_strlit("8");
        reveal_strlit("9");
    }
    let text = if d == 0 {
        "0"
    } else if d == 1 {
        "1"
    } else if d == 2 {
        "2"
    } else if d == 3 {
        "3"
    } else if d == 4 {
        "4"
    } else if d == 5 {
        "5"
    } else if d == 6 {
        "6"
    } else if d == 7 {
        "7"
    } else if d == 8 {
        "8"
    } else {
        "9"
    };
    assert(text@ =~= seq![((48 + d) as u8) as char]);
    text
}

/// Writes `n` in decimal digits.
pub fn decimal_string(n: u64) -> (out: String)
    ensures
        out@ == decimal_chars(n as nat),
    decreases n,
{
    let mut out = if n >= 10 {
        decimal_string(n / 10)
    } else {
        String::new()
    };
    out.append(digit_text(n % 10));
    proof {
        if n < 10 {
            assert(out@ =~= decimal_chars(n as nat));
        } else {
            assert(out@ =~= decimal_chars(n as nat));
        }
    }
    out
}

/// Makes the name of the immutable segment with the given counter.
pub fn segment_file_name(counter: u64) -> (name: String)
    ensures
        name@ == segment_name(counter),
{
    let mut name = decimal_string(counter);
    name.append(".immutable");
    name
}

/// The digits of a number denote the number.
pub proof fn lemma_decimal_chars(n: nat)
    ensures
        decimal_chars(n).len() >= 1,
        all_digit_chars(decimal_chars(n)),
        decimal_value(as_digits(decimal_chars(n))) == n,
    decreases n,
{
    if n >= 10 {
        lemma_decimal_chars(n / 10);
        let head = decimal_chars(n / 10);
        let all = decimal_chars(n);
        assert(as_digits(all).drop_last() =~= as_digits(head));
        assert(as_digits(all).last() == (48 + n % 10) as u8);
        assert(decimal_value(as_digits(all)) == decimal_value(as_digits(all).drop_last()) * 10 + (
        as_digits(all).last() - 48) as nat);
        assert forall|i: int| 0 <= i < all.len() implies is_digit_char(#[trigger] all[i]) by {
            if i < head.len() {
                assert(all[i] == head[i]);
            }
        }
    } else {
        let all = decimal_chars(n);
        assert(as_digits(all).drop_last() =~= Seq::<u8>::empty());
        assert(as_digits(all).last() == (48 + n) as u8);
        assert(decimal_value(as_digits(all).drop_last()) == 0);
        assert(decimal_value(as_digits(all)) == decimal_value(as_digits(all).drop_last()) * 10 + (
        as_digits(all).last() - 48) as nat);
    }
}

/// Where the last dot of a name stands.
proof fn lemma_last_dot(name: Seq<char>, end: int, dot: int)
    requires
        0 <= dot < end <= name.len(),
        name[dot] == '.',
        forall|j: int| dot < j < end ==> #[trigger] name[j] != '.',
    ensures
        last_dot(name, end) == dot,
    decreases end,
{
    if end - 1 > dot {
        lemma_last_dot(name, end - 1, dot);
    }
}

/// The name that a segment is written under is the name of an immutable
/// segment, its counter is the segment's, and it is not the name of the
/// active segment.
pub proof fn lemma_segment_name(counter: u64)
    ensures
        is_immutable_name(segment_name(counter)),
        counter_of(segment_name(counter)) == Some(counter),
        segment_name(counter) != active_name(),
{
    reveal_strlit(".immutable");
    reveal_strlit("db.active");
    let digits = decimal_chars(counter as nat);
    let name = segment_name(counter);
    lemma_decimal_chars(counter as nat);
    assert(name.subrange(name.len() - 10, name.len() as int) =~= immutable_suffix());
    assert(name[digits.len() as int] == '.');
    assert forall|j: int| digits.len() < j < name.len() implies #[trigger] name[j] != '.' by {
        assert(name[j] == immutable_suffix()[j - digits.len()]);
    }
    lemma_last_dot(name, name.len() as int, digits.len() as int);
    assert(file_stem(name) =~= digits);
    assert(is_digit_char(digits[0]));
    assert(without_sign(digits) == digits);
    if name == active_name() {
        assert(name.len() == 9);
    }
}

} // verus!
