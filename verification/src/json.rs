//! Scanners for the pieces of a JSON document that is laid out as expected.
//!
//! A scanner starts at a cursor, first skips white space, and leaves the cursor behind what it has
//! read, or where it gave up. Each has a specification function that takes the bytes and the
//! position and gives what is read and where the cursor ends up.

use crate::calendar::{moment, moment_from, Timestamp};
use crate::decimals::{
    BITS_0_15, BITS_0_2, BITS_0_25, BITS_0_3, BITS_0_35, BITS_0_45, BITS_0_5, BITS_0_75, BITS_0_8,
    BITS_0_85,
};
use crate::single::Single;
use crate::text::{
    decimal, digits_end, find, find_byte, is_digit, law_bytes_are_found_at_their_first_place,
    law_digits_run_to_the_first_other_byte, lemma_decimal_grows, lemma_digits_end, same_bytes,
};
use vstd::prelude::*;

verus! {

/// A number as it is written: a sign, and digits before and behind the point.
pub struct Decimal {
    pub negative: bool,
    pub integer: Vec<u8>,
    pub fraction: Vec<u8>,
}

/// What a [`Decimal`] holds.
pub struct Numeral {
    pub negative: bool,
    pub integer: Seq<u8>,
    pub fraction: Seq<u8>,
}

impl View for Decimal {
    type V = Numeral;

    open spec fn view(&self) -> Numeral {
        Numeral {
            negative: self.negative,
            integer: self.integer@,
            fraction: self.fraction@,
        }
    }
}

/// A space, a tab, a line feed or a carriage return.
pub open spec fn is_space(byte: u8) -> bool {
    byte == 0x20 || byte == 0x09 || byte == 0x0a || byte == 0x0d
}

/// The first position from `at` on that holds no white space.
pub open spec fn past_space(body: Seq<u8>, at: int) -> int
    decreases body.len() - at,
{
    if 0 <= at < body.len() && is_space(body[at]) {
        past_space(body, at + 1)
    } else {
        at
    }
}

/// Whether the byte stands at the position.
pub open spec fn byte_is(body: Seq<u8>, at: int, byte: u8) -> bool {
    0 <= at < body.len() && body[at] == byte
}

/// Whether the word stands at the position.
pub open spec fn word_is(body: Seq<u8>, at: int, word: Seq<u8>) -> bool {
    0 <= at && at + word.len() <= body.len() && body.subrange(at, at + word.len()) == word
}

/// Where the value behind the next colon starts.
pub open spec fn value_start(body: Seq<u8>, at: int) -> Option<int> {
    let colon = find(body, 0x3a, at);
    if colon < body.len() {
        Some(past_space(body, colon + 1))
    } else {
        None
    }
}

/// Behind the opening brace, if there is one.
pub open spec fn past_brace(body: Seq<u8>, at: int) -> int {
    let start = past_space(body, at);
    if byte_is(body, start, 0x7b) {
        start + 1
    } else {
        start
    }
}

/// The first position from `at` on that holds a quote or a backslash; the end where none does.
pub open spec fn string_end(body: Seq<u8>, at: int) -> int
    decreases body.len() - at,
{
    if 0 <= at < body.len() && body[at] != 0x22 && body[at] != 0x5c {
        string_end(body, at + 1)
    } else {
        at
    }
}

/// A string without escapes.
pub open spec fn json_string(body: Seq<u8>, at: int) -> (Option<Seq<u8>>, int) {
    let quote = past_space(body, at);
    if !byte_is(body, quote, 0x22) {
        (None, quote)
    } else {
        let end = string_end(body, quote + 1);
        if byte_is(body, end, 0x22) {
            (Some(body.subrange(quote + 1, end)), end + 1)
        } else {
            (None, end)
        }
    }
}

/// A number without an exponent. A lone point, or a sign without digits, is none.
pub open spec fn json_decimal(body: Seq<u8>, at: int) -> (Option<Numeral>, int) {
    let sign = past_space(body, at);
    let negative = byte_is(body, sign, 0x2d);
    let start = if negative { sign + 1 } else { sign };
    let point = digits_end(body, start);
    let has_point = byte_is(body, point, 0x2e);
    let end = if has_point { digits_end(body, point + 1) } else { point };
    let integer = body.subrange(start, point);
    let fraction = if has_point { body.subrange(point + 1, end) } else { Seq::empty() };
    let exponent = byte_is(body, end, 0x65) || byte_is(body, end, 0x45);
    let no_digits = point == start && (has_point ==> end == point + 1);
    if exponent || no_digits {
        (None, end)
    } else {
        (Some(Numeral { negative, integer, fraction }), end)
    }
}

/// The longest part of a run of digits, from `start`, that writes a number that fits 32 bits ends
/// here.
pub open spec fn fitting_end(body: Seq<u8>, start: int, at: int) -> int
    decreases body.len() - at,
{
    if 0 <= at < body.len() && is_digit(body[at]) && decimal(body.subrange(start, at + 1))
        <= u32::MAX {
        fitting_end(body, start, at + 1)
    } else {
        at
    }
}

/// A run of digits that writes a number that fits 32 bits.
pub open spec fn json_u32(body: Seq<u8>, at: int) -> (Option<u32>, int) {
    let start = past_space(body, at);
    let end = fitting_end(body, start, start);
    if end == start || end < digits_end(body, start) {
        (None, end)
    } else {
        (Some(decimal(body.subrange(start, end)) as u32), end)
    }
}

/// The word `true`.
pub open spec fn word_true() -> Seq<u8> {
    seq![0x74, 0x72, 0x75, 0x65]
}

/// The word `false`.
pub open spec fn word_false() -> Seq<u8> {
    seq![0x66, 0x61, 0x6c, 0x73, 0x65]
}

/// The word `null`.
pub open spec fn word_null() -> Seq<u8> {
    seq![0x6e, 0x75, 0x6c, 0x6c]
}

/// The word `true` or `false`.
pub open spec fn json_bool(body: Seq<u8>, at: int) -> (Option<bool>, int) {
    let start = past_space(body, at);
    if word_is(body, start, word_true()) {
        (Some(true), start + 4)
    } else if word_is(body, start, word_false()) {
        (Some(false), start + 5)
    } else {
        (None, start)
    }
}

/// The code in a merchant's id: `MERC-` and three digits.
pub open spec fn merchant_code(id: Seq<u8>) -> Option<u16> {
    if id.len() == 8 && id.take(5) == seq![0x4du8, 0x45, 0x52, 0x43, 0x2d] && is_digit(id[5])
        && is_digit(id[6]) && is_digit(id[7]) {
        Some(decimal(id.subrange(5, 8)) as u16)
    } else {
        None
    }
}

/// A merchant's id, as its code.
pub open spec fn json_merchant(body: Seq<u8>, at: int) -> (Option<u16>, int) {
    let (id, end) = json_string(body, at);
    match id {
        Some(id) => (merchant_code(id), end),
        None => (None, end),
    }
}

/// The merchants' codes that come before the closing bracket, after those already read.
pub open spec fn json_merchants_from(body: Seq<u8>, at: int, read: Seq<u16>) -> (
    Option<Seq<u16>>,
    int,
)
    decreases body.len() - at,
{
    let start = past_space(body, at);
    if byte_is(body, start, 0x5d) {
        (Some(read), start + 1)
    } else {
        let (code, end) = json_merchant(body, start);
        let next = past_space(body, end);
        match code {
            Some(code) => if byte_is(body, next, 0x2c) {
                proof {
                    lemma_past_space(body, at);
                    lemma_string_end(body, past_space(body, start) + 1);
                    lemma_past_space(body, start);
                    lemma_past_space(body, end);
                }
                json_merchants_from(body, next + 1, read.push(code))
            } else if byte_is(body, next, 0x5d) {
                (Some(read.push(code)), next + 1)
            } else {
                (None, next)
            },
            None => (None, end),
        }
    }
}

/// A list of merchants' ids, as their codes.
pub open spec fn json_merchants(body: Seq<u8>, at: int) -> (Option<Seq<u16>>, int) {
    let start = past_space(body, at);
    if byte_is(body, start, 0x5b) {
        json_merchants_from(body, start + 1, seq![])
    } else {
        (None, start)
    }
}

/// The first 16 of the codes; `u16::MAX` in the slots that are left.
pub open spec fn first_codes(codes: Seq<u16>) -> Seq<u16> {
    Seq::new(
        16,
        |i: int|
            if i < codes.len() {
                codes[i]
            } else {
                u16::MAX
            },
    )
}

/// The risk of a merchant category code.
pub open spec fn category_risk(code: Seq<u8>) -> Single {
    Single {
        bits: if code == seq![0x35u8, 0x34, 0x31, 0x31] {
            BITS_0_15
        } else if code == seq![0x35u8, 0x38, 0x31, 0x32] {
            BITS_0_3
        } else if code == seq![0x35u8, 0x39, 0x31, 0x32] {
            BITS_0_2
        } else if code == seq![0x35u8, 0x39, 0x34, 0x34] {
            BITS_0_45
        } else if code == seq![0x37u8, 0x38, 0x30, 0x31] {
            BITS_0_8
        } else if code == seq![0x37u8, 0x38, 0x30, 0x32] {
            BITS_0_75
        } else if code == seq![0x37u8, 0x39, 0x39, 0x35] {
            BITS_0_85
        } else if code == seq![0x34u8, 0x35, 0x31, 0x31] {
            BITS_0_35
        } else if code == seq![0x35u8, 0x33, 0x31, 0x31] {
            BITS_0_25
        } else {
            BITS_0_5
        },
    }
}

/// A merchant category code, as its risk.
pub open spec fn json_risk(body: Seq<u8>, at: int) -> (Option<Single>, int) {
    let (code, end) = json_string(body, at);
    match code {
        Some(code) => (Some(category_risk(code)), end),
        None => (None, end),
    }
}

/// A moment.
pub open spec fn json_moment(body: Seq<u8>, at: int) -> (Option<Timestamp>, int) {
    let (text, end) = json_string(body, at);
    match text {
        Some(text) => (moment(text), end),
        None => (None, end),
    }
}

/// White space is skipped forwards, and not beyond the end.
pub proof fn lemma_past_space(body: Seq<u8>, at: int)
    ensures
        at <= past_space(body, at),
        0 <= at <= body.len() ==> past_space(body, at) <= body.len(),
    decreases body.len() - at,
{
    if 0 <= at < body.len() && is_space(body[at]) {
        lemma_past_space(body, at + 1);
    }
}

/// A string ends where it starts or later.
pub proof fn lemma_string_end(body: Seq<u8>, at: int)
    ensures
        at <= string_end(body, at),
    decreases body.len() - at,
{
    if 0 <= at < body.len() && body[at] != 0x22 && body[at] != 0x5c {
        lemma_string_end(body, at + 1);
    }
}

/// The first position from `cursor` on that holds no white space.
pub fn skip_space(body: &[u8], cursor: usize) -> (position: usize)
    ensures
        position == past_space(body@, cursor as int),
        cursor <= position,
        cursor <= body@.len() ==> position <= body@.len(),
{
    let mut position: usize = cursor;
    while position < body.len() && (body[position] == 0x20 || body[position] == 0x09
        || body[position] == 0x0a || body[position] == 0x0d)
        invariant
            cursor <= position,
            cursor <= body.len() ==> position <= body.len(),
            past_space(body@, cursor as int) == past_space(body@, position as int),
        decreases body.len() - position,
    {
        position = position + 1;
    }
    position
}

/// Where the value behind the next colon starts.
pub fn next_value(body: &[u8], cursor: usize) -> (start: Option<usize>)
    requires
        cursor <= body@.len(),
    ensures
        match start {
            Some(start) => value_start(body@, cursor as int) == Some(start as int) && cursor < start
                <= body@.len(),
            None => value_start(body@, cursor as int) is None,
        },
{
    let colon: usize = find_byte(body, 0x3a, cursor);
    if colon < body.len() {
        Some(skip_space(body, colon + 1))
    } else {
        None
    }
}

/// Moves behind the opening brace, if there is one.
pub fn skip_object_start(body: &[u8], cursor: &mut usize)
    ensures
        *final(cursor) == past_brace(body@, *old(cursor) as int),
        *old(cursor) <= body@.len() ==> *final(cursor) <= body@.len(),
{
    *cursor = skip_space(body, *cursor);
    if *cursor < body.len() && body[*cursor] == 0x7b {
        *cursor = *cursor + 1;
    }
}

/// Reads a string without escapes.
pub fn scan_json_string<'a>(body: &'a [u8], cursor: &mut usize) -> (text: Option<&'a [u8]>)
    ensures
        *final(cursor) == json_string(body@, *old(cursor) as int).1,
        match text {
            Some(text) => json_string(body@, *old(cursor) as int).0 == Some(text@) && *old(cursor)
                + 2 + text@.len() <= *final(cursor),
            None => json_string(body@, *old(cursor) as int).0 is None,
        },
        *old(cursor) <= body@.len() ==> *final(cursor) <= body@.len(),
{
    *cursor = skip_space(body, *cursor);
    if !(*cursor < body.len() && body[*cursor] == 0x22) {
        return None;
    }
    *cursor = *cursor + 1;
    let start: usize = *cursor;
    while *cursor < body.len()
        invariant
            0 < start <= *cursor <= body.len(),
            string_end(body@, start as int) == string_end(body@, *cursor as int),
            start == past_space(body@, *old(cursor) as int) + 1,
            *old(cursor) < start,
            byte_is(body@, start - 1, 0x22),
        decreases body.len() - *cursor,
    {
        let byte: u8 = body[*cursor];
        if byte == 0x5c {
            return None;
        }
        if byte == 0x22 {
            let text = &body[start..*cursor];
            *cursor = *cursor + 1;
            return Some(text);
        }
        *cursor = *cursor + 1;
    }
    None
}

/// Reads a number without an exponent.
pub fn scan_decimal(body: &[u8], cursor: &mut usize) -> (number: Option<Decimal>)
    ensures
        *final(cursor) == json_decimal(body@, *old(cursor) as int).1,
        match number {
            Some(number) => json_decimal(body@, *old(cursor) as int).0 == Some(number@),
            None => json_decimal(body@, *old(cursor) as int).0 is None,
        },
        *old(cursor) <= body@.len() ==> *final(cursor) <= body@.len(),
{
    *cursor = skip_space(body, *cursor);
    let mut negative: bool = false;
    if *cursor < body.len() && body[*cursor] == 0x2d {
        negative = true;
        *cursor = *cursor + 1;
    }
    let start: usize = *cursor;
    let point: usize = skip_digits(body, start);
    let mut end: usize = point;
    if point < body.len() && body[point] == 0x2e {
        end = skip_digits(body, point + 1);
    }
    *cursor = end;
    if end < body.len() && (body[end] == 0x65 || body[end] == 0x45) {
        return None;
    }
    if start == point && (end == point || end - point == 1) {
        return None;
    }
    let integer: Vec<u8> = vstd::slice::slice_to_vec(&body[start..point]);
    let fraction: Vec<u8> = if end > point {
        vstd::slice::slice_to_vec(&body[point + 1..end])
    } else {
        Vec::new()
    };
    Some(Decimal { negative, integer, fraction })
}

/// Where the run of digits that starts at `at` ends.
fn skip_digits(body: &[u8], at: usize) -> (end: usize)
    ensures
        end == digits_end(body@, at as int),
        at <= end,
        at <= body@.len() ==> end <= body@.len(),
{
    let mut end: usize = at;
    while end < body.len() && body[end] >= 0x30 && body[end] <= 0x39
        invariant
            at <= end,
            at <= body.len() ==> end <= body.len(),
            digits_end(body@, at as int) == digits_end(body@, end as int),
        decreases body.len() - end,
    {
        end = end + 1;
    }
    end
}

/// Reads a number of at most 32 bits.
pub fn scan_u32(body: &[u8], cursor: &mut usize) -> (number: Option<u32>)
    ensures
        number == json_u32(body@, *old(cursor) as int).0,
        *final(cursor) == json_u32(body@, *old(cursor) as int).1,
        *old(cursor) <= body@.len() ==> *final(cursor) <= body@.len(),
{
    *cursor = skip_space(body, *cursor);
    let start: usize = *cursor;
    let mut value: u32 = 0;
    while *cursor < body.len() && body[*cursor] >= 0x30 && body[*cursor] <= 0x39
        invariant
            start == past_space(body@, *old(cursor) as int),
            start <= *cursor,
            *old(cursor) <= body.len() ==> *cursor <= body.len(),
            start < *cursor ==> *cursor <= body.len(),
            start < *cursor ==> value == decimal(body@.subrange(start as int, *cursor as int)),
            start == *cursor ==> value == 0,
            fitting_end(body@, start as int, start as int) == fitting_end(
                body@,
                start as int,
                *cursor as int,
            ),
            digits_end(body@, start as int) == digits_end(body@, *cursor as int),
        decreases body.len() - *cursor,
    {
        let digit: u32 = (body[*cursor] - 0x30) as u32;
        proof {
            let more = body@.subrange(start as int, *cursor + 1);
            assert(more.drop_last() =~= body@.subrange(start as int, *cursor as int));
            assert(value == decimal(body@.subrange(start as int, *cursor as int)));
            lemma_digits_end(body@, *cursor + 1);
        }
        if value > u32::MAX / 10 {
            return None;
        }
        if digit > u32::MAX - value * 10 {
            return None;
        }
        value = value * 10 + digit;
        *cursor = *cursor + 1;
    }
    if *cursor > start {
        Some(value)
    } else {
        None
    }
}

/// Reads `true` or `false`.
pub fn scan_bool(body: &[u8], cursor: &mut usize) -> (answer: Option<bool>)
    ensures
        answer == json_bool(body@, *old(cursor) as int).0,
        *final(cursor) == json_bool(body@, *old(cursor) as int).1,
        *old(cursor) <= body@.len() ==> *final(cursor) <= body@.len(),
{
    *cursor = skip_space(body, *cursor);
    let yes = [0x74u8, 0x72u8, 0x75u8, 0x65u8];
    let no = [0x66u8, 0x61u8, 0x6cu8, 0x73u8, 0x65u8];
    assert(yes@ =~= word_true());
    assert(no@ =~= word_false());
    if is_at(body, *cursor, &yes) {
        *cursor = *cursor + 4;
        Some(true)
    } else if is_at(body, *cursor, &no) {
        *cursor = *cursor + 5;
        Some(false)
    } else {
        None
    }
}

/// Whether the word stands at the position.
fn is_at(body: &[u8], at: usize, word: &[u8]) -> (answer: bool)
    ensures
        answer == word_is(body@, at as int, word@),
        answer ==> at + word@.len() <= usize::MAX,
{
    at <= body.len() && body.len() - at >= word.len() && same_bytes(
        &body[at..at + word.len()],
        word,
    )
}

/// Whether `null` stands at the position.
pub fn is_null(body: &[u8], at: usize) -> (answer: bool)
    ensures
        answer == word_is(body@, at as int, word_null()),
{
    let word = [0x6eu8, 0x75u8, 0x6cu8, 0x6cu8];
    assert(word@ =~= word_null());
    is_at(body, at, &word)
}

/// Reads a merchant's id, as its code.
pub fn scan_merchant_code(body: &[u8], cursor: &mut usize) -> (code: Option<u16>)
    ensures
        code == json_merchant(body@, *old(cursor) as int).0,
        *final(cursor) == json_merchant(body@, *old(cursor) as int).1,
        code is Some ==> *old(cursor) + 2 <= *final(cursor),
        *old(cursor) <= body@.len() ==> *final(cursor) <= body@.len(),
{
    let id = match scan_json_string(body, cursor) {
        Some(id) => id,
        None => return None,
    };
    let prefix = [0x4du8, 0x45u8, 0x52u8, 0x43u8, 0x2du8];
    if id.len() != 8 {
        return None;
    }
    assert(prefix@ =~= seq![0x4du8, 0x45, 0x52, 0x43, 0x2d]);
    assert(id@.subrange(0, 5) =~= id@.take(5));
    if !same_bytes(&id[0..5], &prefix) {
        return None;
    }
    if !(id[5] >= 0x30 && id[5] <= 0x39 && id[6] >= 0x30 && id[6] <= 0x39 && id[7] >= 0x30 && id[7]
        <= 0x39) {
        return None;
    }
    proof {
        reveal_with_fuel(decimal, 4);
    }
    Some((id[5] - 0x30) as u16 * 100 + (id[6] - 0x30) as u16 * 10 + (id[7] - 0x30) as u16)
}

/// Reads a list of merchants' ids and keeps the codes of the first 16.
pub fn scan_known_merchants(body: &[u8], cursor: &mut usize) -> (codes: Option<[u16; 16]>)
    ensures
        *final(cursor) == json_merchants(body@, *old(cursor) as int).1,
        match codes {
            Some(codes) => json_merchants(body@, *old(cursor) as int).0 matches Some(read)
                && codes@ == first_codes(read),
            None => json_merchants(body@, *old(cursor) as int).0 is None,
        },
        *old(cursor) <= body@.len() ==> *final(cursor) <= body@.len(),
{
    *cursor = skip_space(body, *cursor);
    if !(*cursor < body.len() && body[*cursor] == 0x5b) {
        return None;
    }
    *cursor = *cursor + 1;
    let mut out: [u16; 16] = [u16::MAX;16];
    let mut len: usize = 0;
    let ghost mut read: Seq<u16> = seq![];
    let ghost whole = json_merchants(body@, *old(cursor) as int);
    assert(out@ =~= first_codes(read));
    loop
        invariant
            *cursor <= body.len(),
            whole == json_merchants(body@, *old(cursor) as int),
            whole == json_merchants_from(body@, *cursor as int, read),
            len == if read.len() < 16 {
                read.len()
            } else {
                16
            },
            out@ == first_codes(read),
        decreases body.len() - *cursor,
    {
        let ghost at = *cursor as int;
        *cursor = skip_space(body, *cursor);
        if *cursor < body.len() && body[*cursor] == 0x5d {
            *cursor = *cursor + 1;
            return Some(out);
        }
        let code: u16 = match scan_merchant_code(body, cursor) {
            Some(code) => code,
            None => return None,
        };
        if len < 16 {
            out[len] = code;
            len = len + 1;
        }
        assert(out@ =~= first_codes(read.push(code)));
        *cursor = skip_space(body, *cursor);
        if *cursor < body.len() && body[*cursor] == 0x2c {
            *cursor = *cursor + 1;
            proof {
                read = read.push(code);
            }
        } else if *cursor < body.len() && body[*cursor] == 0x5d {
            *cursor = *cursor + 1;
            return Some(out);
        } else {
            return None;
        }
    }
}

/// The risk of a merchant category code.
pub fn risk_of(code: &[u8]) -> (risk: Single)
    ensures
        risk == category_risk(code@),
{
    if code.len() != 4 {
        return Single::from_bits(BITS_0_5);
    }
    let quad = (code[0], code[1], code[2], code[3]);
    proof {
        lemma_four_bytes(code@);
    }
    let bits: u32 = match quad {
        (0x35, 0x34, 0x31, 0x31) => BITS_0_15,
        (0x35, 0x38, 0x31, 0x32) => BITS_0_3,
        (0x35, 0x39, 0x31, 0x32) => BITS_0_2,
        (0x35, 0x39, 0x34, 0x34) => BITS_0_45,
        (0x37, 0x38, 0x30, 0x31) => BITS_0_8,
        (0x37, 0x38, 0x30, 0x32) => BITS_0_75,
        (0x37, 0x39, 0x39, 0x35) => BITS_0_85,
        (0x34, 0x35, 0x31, 0x31) => BITS_0_35,
        (0x35, 0x33, 0x31, 0x31) => BITS_0_25,
        _ => BITS_0_5,
    };
    Single::from_bits(bits)
}

/// Four bytes are told apart one by one.
proof fn lemma_four_bytes(code: Seq<u8>)
    requires
        code.len() == 4,
    ensures
        forall|a: u8, b: u8, c: u8, d: u8|
            (code == #[trigger] seq![a, b, c, d]) == (code[0] == a && code[1] == b && code[2] == c
                && code[3] == d),
{
    assert forall|a: u8, b: u8, c: u8, d: u8|
        (code == #[trigger] seq![a, b, c, d]) == (code[0] == a && code[1] == b && code[2] == c
            && code[3] == d) by {
        let other = seq![a, b, c, d];
        if code[0] == a && code[1] == b && code[2] == c && code[3] == d {
            assert(code =~= other);
        }
    }
}

/// Reads a merchant category code, as its risk.
pub fn scan_mcc_risk(body: &[u8], cursor: &mut usize) -> (risk: Option<Single>)
    ensures
        risk == json_risk(body@, *old(cursor) as int).0,
        *final(cursor) == json_risk(body@, *old(cursor) as int).1,
        *old(cursor) <= body@.len() ==> *final(cursor) <= body@.len(),
{
    match scan_json_string(body, cursor) {
        Some(code) => Some(risk_of(code)),
        None => None,
    }
}

/// Reads a moment.
pub fn scan_timestamp(body: &[u8], cursor: &mut usize) -> (timestamp: Option<Timestamp>)
    ensures
        timestamp == json_moment(body@, *old(cursor) as int).0,
        *final(cursor) == json_moment(body@, *old(cursor) as int).1,
        timestamp matches Some(t) ==> -100_000_000_000 < t.total_seconds < 1_000_000_000_000
            && t.hour < 100,
        *old(cursor) <= body@.len() ==> *final(cursor) <= body@.len(),
{
    match scan_json_string(body, cursor) {
        Some(text) => moment_from(text),
        None => None,
    }
}

/// White space is skipped up to the first other byte.
pub proof fn law_space_is_skipped_to_the_first_other_byte(body: Seq<u8>, at: int)
    requires
        0 <= at <= body.len(),
    ensures
        at <= past_space(body, at) <= body.len(),
        forall|i: int|
            at <= i < past_space(body, at) ==> #[trigger] body[i] == 0x20 || body[i] == 0x09
                || body[i] == 0x0a || body[i] == 0x0d,
        past_space(body, at) < body.len() ==> {
            let byte = body[past_space(body, at)];
            byte != 0x20 && byte != 0x09 && byte != 0x0a && byte != 0x0d
        },
    decreases body.len() - at,
{
    if at < body.len() && is_space(body[at]) {
        law_space_is_skipped_to_the_first_other_byte(body, at + 1);
    }
}

/// The bytes from one position to another are white space, and the next is not.
pub open spec fn is_space_between(body: Seq<u8>, at: int, start: int) -> bool {
    &&& 0 <= at <= start <= body.len()
    &&& forall|i: int|
        at <= i < start ==> #[trigger] body[i] == 0x20 || body[i] == 0x09 || body[i] == 0x0a
            || body[i] == 0x0d
    &&& start < body.len() ==> !(body[start] == 0x20 || body[start] == 0x09 || body[start] == 0x0a
        || body[start] == 0x0d)
}

/// White space is skipped as far as it goes.
pub proof fn lemma_space_between(body: Seq<u8>, at: int, start: int)
    requires
        is_space_between(body, at, start),
    ensures
        past_space(body, at) == start,
    decreases start - at,
{
    if at < start {
        assert(is_space(body[at]));
        lemma_space_between(body, at + 1, start);
    }
}

/// A value starts at the first byte that is no white space behind the next colon; without a colon
/// there is none.
pub proof fn law_values_start_behind_the_next_colon(
    body: Seq<u8>,
    at: int,
    colon: int,
    start: int,
)
    requires
        0 <= at <= colon <= body.len(),
        forall|i: int| at <= i < colon ==> #[trigger] body[i] != 0x3a,
        colon < body.len() ==> body[colon] == 0x3a && is_space_between(body, colon + 1, start),
    ensures
        value_start(body, at) == if colon < body.len() {
            Some(start)
        } else {
            None
        },
{
    law_bytes_are_found_at_their_first_place(body, 0x3a, at);
    let found = find(body, 0x3a, at);
    if found < colon {
        assert(body[found] != 0x3a);
    } else if colon < found {
        assert(body[colon] != 0x3a);
    }
    if colon < body.len() {
        lemma_space_between(body, colon + 1, start);
    }
}

/// A brace is passed where there is one.
pub proof fn law_a_brace_is_passed(body: Seq<u8>, at: int, start: int)
    requires
        is_space_between(body, at, start),
    ensures
        past_brace(body, at) == if start < body.len() && body[start] == 0x7b {
            start + 1
        } else {
            start
        },
{
    lemma_space_between(body, at, start);
}

/// A string is what stands between two quotes, and nothing is read where the first of them is
/// missing, or a backslash or the end comes before the second.
pub proof fn law_strings_stand_between_quotes(body: Seq<u8>, at: int, start: int, end: int)
    requires
        is_space_between(body, at, start),
        start < body.len() && body[start] == 0x22 ==> {
            &&& start < end <= body.len()
            &&& forall|i: int| start < i < end ==> #[trigger] body[i] != 0x22 && body[i] != 0x5c
            &&& end < body.len() ==> body[end] == 0x22 || body[end] == 0x5c
        },
    ensures
        start >= body.len() || body[start] != 0x22 ==> json_string(body, at) == (
            None::<Seq<u8>>,
            start,
        ),
        start < body.len() && body[start] == 0x22 ==> json_string(body, at) == if end < body.len()
            && body[end] == 0x22 {
            (Some(body.subrange(start + 1, end)), end + 1)
        } else {
            (None, end)
        },
{
    lemma_space_between(body, at, start);
    if start < body.len() && body[start] == 0x22 {
        lemma_string_runs(body, start + 1, end);
    }
}

/// A string runs up to the first quote or backslash.
proof fn lemma_string_runs(body: Seq<u8>, at: int, end: int)
    requires
        0 <= at <= end <= body.len(),
        forall|i: int| at <= i < end ==> #[trigger] body[i] != 0x22 && body[i] != 0x5c,
        end < body.len() ==> body[end] == 0x22 || body[end] == 0x5c,
    ensures
        string_end(body, at) == end,
    decreases end - at,
{
    if at < end {
        lemma_string_runs(body, at + 1, end);
    }
}

/// The bytes from one position to another are digits, and the next is not.
pub open spec fn is_run_of_digits(body: Seq<u8>, at: int, end: int) -> bool {
    &&& 0 <= at <= end <= body.len()
    &&& forall|i: int| at <= i < end ==> 0x30 <= #[trigger] body[i] <= 0x39
    &&& end < body.len() ==> !(0x30 <= body[end] <= 0x39)
}

/// A run of digits ends where it does.
proof fn lemma_run_of_digits(body: Seq<u8>, at: int, end: int)
    requires
        is_run_of_digits(body, at, end),
    ensures
        digits_end(body, at) == end,
{
    law_digits_run_to_the_first_other_byte(body, at);
    let found = digits_end(body, at);
    if found < end {
        assert(0x30 <= body[found] <= 0x39);
    } else if end < found {
        assert(0x30 <= body[end] <= 0x39);
    }
}

/// A number is a minus sign or none, digits, and a point with digits or neither; there is at least
/// one digit, and no exponent follows. Its digits are kept as they are.
pub proof fn law_numbers_are_signs_and_digits(
    body: Seq<u8>,
    at: int,
    sign: int,
    point: int,
    end: int,
)
    requires
        is_space_between(body, at, sign),
        ({
            let negative = sign < body.len() && body[sign] == 0x2d;
            let start = if negative {
                sign + 1
            } else {
                sign
            };
            let has_point = point < body.len() && body[point] == 0x2e;
            &&& is_run_of_digits(body, start, point)
            &&& has_point ==> is_run_of_digits(body, point + 1, end)
            &&& !has_point ==> end == point
        }),
    ensures
        ({
            let negative = sign < body.len() && body[sign] == 0x2d;
            let start = if negative {
                sign + 1
            } else {
                sign
            };
            let has_point = point < body.len() && body[point] == 0x2e;
            let exponent = end < body.len() && (body[end] == 0x65 || body[end] == 0x45);
            let digits = if has_point {
                end - start - 1
            } else {
                end - start
            };
            &&& json_decimal(body, at).1 == end
            &&& exponent || digits == 0 ==> json_decimal(body, at).0 is None
            &&& !exponent && digits > 0 ==> (json_decimal(body, at).0 matches Some(number)
                && number.negative == negative && number.integer == body.subrange(start, point)
                && number.fraction == if has_point {
                body.subrange(point + 1, end)
            } else {
                seq![]
            })
        }),
{
    let negative = sign < body.len() && body[sign] == 0x2d;
    let start = if negative {
        sign + 1
    } else {
        sign
    };
    lemma_space_between(body, at, sign);
    lemma_run_of_digits(body, start, point);
    if point < body.len() && body[point] == 0x2e {
        lemma_run_of_digits(body, point + 1, end);
    }
}

/// A count is a run of digits that writes a number that fits 32 bits; without digits, or with a
/// larger number, nothing is read.
pub proof fn law_counts_are_digits_that_fit(body: Seq<u8>, at: int, start: int, end: int)
    requires
        is_space_between(body, at, start),
        is_run_of_digits(body, start, end),
    ensures
        start == end || decimal(body.subrange(start, end)) > 0xffff_ffff ==> json_u32(body, at).0
            is None,
        start < end && decimal(body.subrange(start, end)) <= 0xffff_ffff ==> (
        json_u32(body, at).0 matches Some(number) && number == decimal(body.subrange(start, end))
            && json_u32(body, at).1 == end),
{
    lemma_space_between(body, at, start);
    lemma_run_of_digits(body, start, end);
    assert forall|i: int| start <= i < end implies is_digit(#[trigger] body[i]) by {}
    lemma_decimal_grows(body, start, start, end);
    lemma_fitting(body, start, start, end);
}

/// The part of a run of digits that fits 32 bits is the whole run where its number does, and less
/// where it does not.
proof fn lemma_fitting(body: Seq<u8>, start: int, at: int, end: int)
    requires
        0 <= start <= at <= end <= body.len(),
        forall|i: int| start <= i < end ==> is_digit(#[trigger] body[i]),
        end < body.len() ==> !is_digit(body[end]),
        at > start ==> decimal(body.subrange(start, at)) <= u32::MAX,
    ensures
        decimal(body.subrange(start, end)) <= u32::MAX ==> fitting_end(body, start, at) == end,
        decimal(body.subrange(start, end)) > u32::MAX && start < end ==> fitting_end(
            body,
            start,
            at,
        ) < end,
    decreases end - at,
{
    if at < end {
        lemma_decimal_grows(body, start, at + 1, end);
        if decimal(body.subrange(start, at + 1)) <= u32::MAX {
            lemma_fitting(body, start, at + 1, end);
        }
    }
}

/// A truth value is the word `true` or the word `false`, byte by byte, whatever follows; anything
/// else is none.
pub proof fn law_truth_values_are_two_words(body: Seq<u8>, at: int, start: int)
    requires
        is_space_between(body, at, start),
    ensures
        ({
            let is_true = start + 4 <= body.len() && body[start] == 0x74 && body[start + 1] == 0x72
                && body[start + 2] == 0x75 && body[start + 3] == 0x65;
            let is_false = start + 5 <= body.len() && body[start] == 0x66 && body[start + 1] == 0x61
                && body[start + 2] == 0x6c && body[start + 3] == 0x73 && body[start + 4] == 0x65;
            &&& is_true ==> json_bool(body, at) == (Some(true), start + 4)
            &&& is_false ==> json_bool(body, at) == (Some(false), start + 5)
            &&& !is_true && !is_false ==> json_bool(body, at) == (None::<bool>, start)
        }),
{
    lemma_space_between(body, at, start);
    if start + 4 <= body.len() {
        let found = body.subrange(start, start + 4);
        if found == word_true() {
            assert(found[0] == 0x74 && found[1] == 0x72 && found[2] == 0x75 && found[3] == 0x65);
        } else if body[start] == 0x74 && body[start + 1] == 0x72 && body[start + 2] == 0x75
            && body[start + 3] == 0x65 {
            assert(found =~= word_true());
        }
    }
    if start + 5 <= body.len() {
        let found = body.subrange(start, start + 5);
        if found == word_false() {
            assert(found[0] == 0x66 && found[1] == 0x61 && found[2] == 0x6c && found[3] == 0x73
                && found[4] == 0x65);
        } else if body[start] == 0x66 && body[start + 1] == 0x61 && body[start + 2] == 0x6c
            && body[start + 3] == 0x73 && body[start + 4] == 0x65 {
            assert(found =~= word_false());
        }
    }
}

/// A merchant's code is the number of the three digits behind `MERC-`; no other id has one.
pub proof fn law_merchant_codes_are_three_digits(id: Seq<u8>)
    ensures
        ({
            let has_code = id.len() == 8 && id[0] == 0x4d && id[1] == 0x45 && id[2] == 0x52 && id[3]
                == 0x43 && id[4] == 0x2d && 0x30 <= id[5] <= 0x39 && 0x30 <= id[6] <= 0x39 && 0x30
                <= id[7] <= 0x39;
            &&& has_code ==> (merchant_code(id) matches Some(code) && code == 100 * (id[5] - 48)
                + 10 * (id[6] - 48) + (id[7] - 48))
            &&& !has_code ==> merchant_code(id) is None
        }),
{
    reveal_with_fuel(decimal, 4);
    if id.len() == 8 {
        let front = id.take(5);
        let word = seq![0x4du8, 0x45, 0x52, 0x43, 0x2d];
        if front == word {
            assert(front[0] == 0x4d && front[1] == 0x45 && front[2] == 0x52 && front[3] == 0x43
                && front[4] == 0x2d);
        } else if id[0] == 0x4d && id[1] == 0x45 && id[2] == 0x52 && id[3] == 0x43 && id[4]
            == 0x2d {
            assert(front =~= word);
        }
        let digits = id.subrange(5, 8);
        assert(digits.drop_last() =~= id.subrange(5, 7));
        assert(id.subrange(5, 7).drop_last() =~= id.subrange(5, 6));
        assert(id.subrange(5, 6).drop_last() =~= id.subrange(5, 5));
    }
}

/// Nine merchant categories have a risk of their own; every other one is at a half.
pub proof fn law_nine_categories_have_their_own_risk(code: Seq<u8>)
    ensures
        category_risk(seq![0x35u8, 0x34, 0x31, 0x31]).bits == BITS_0_15,
        category_risk(seq![0x35u8, 0x38, 0x31, 0x32]).bits == BITS_0_3,
        category_risk(seq![0x35u8, 0x39, 0x31, 0x32]).bits == BITS_0_2,
        category_risk(seq![0x35u8, 0x39, 0x34, 0x34]).bits == BITS_0_45,
        category_risk(seq![0x37u8, 0x38, 0x30, 0x31]).bits == BITS_0_8,
        category_risk(seq![0x37u8, 0x38, 0x30, 0x32]).bits == BITS_0_75,
        category_risk(seq![0x37u8, 0x39, 0x39, 0x35]).bits == BITS_0_85,
        category_risk(seq![0x34u8, 0x35, 0x31, 0x31]).bits == BITS_0_35,
        category_risk(seq![0x35u8, 0x33, 0x31, 0x31]).bits == BITS_0_25,
        category_risk(code).bits != BITS_0_5 ==> code == seq![0x35u8, 0x34, 0x31, 0x31] || code
            == seq![0x35u8, 0x38, 0x31, 0x32] || code == seq![0x35u8, 0x39, 0x31, 0x32] || code
            == seq![0x35u8, 0x39, 0x34, 0x34] || code == seq![0x37u8, 0x38, 0x30, 0x31] || code
            == seq![0x37u8, 0x38, 0x30, 0x32] || code == seq![0x37u8, 0x39, 0x39, 0x35] || code
            == seq![0x34u8, 0x35, 0x31, 0x31] || code == seq![0x35u8, 0x33, 0x31, 0x31],
{
    let a = seq![0x35u8, 0x34, 0x31, 0x31];
    let b = seq![0x35u8, 0x38, 0x31, 0x32];
    let c = seq![0x35u8, 0x39, 0x31, 0x32];
    let d = seq![0x35u8, 0x39, 0x34, 0x34];
    let e = seq![0x37u8, 0x38, 0x30, 0x31];
    let f = seq![0x37u8, 0x38, 0x30, 0x32];
    let g = seq![0x37u8, 0x39, 0x39, 0x35];
    let h = seq![0x34u8, 0x35, 0x31, 0x31];
    let i = seq![0x35u8, 0x33, 0x31, 0x31];
    assert(a[1] == 0x34 && b[1] == 0x38 && c[1] == 0x39 && d[1] == 0x39 && e[1] == 0x38 && f[1]
        == 0x38 && g[1] == 0x39 && h[1] == 0x35 && i[1] == 0x33);
    assert(a[0] == 0x35 && b[0] == 0x35 && c[0] == 0x35 && d[0] == 0x35 && e[0] == 0x37 && f[0]
        == 0x37 && g[0] == 0x37 && h[0] == 0x34 && i[0] == 0x35);
    assert(c[2] == 0x31 && d[2] == 0x34 && e[3] == 0x31 && f[3] == 0x32);
}

/// A merchant, a risk and a moment are read from a string, and nothing is where no string is; the
/// scan ends where that of the string does.
pub proof fn law_merchants_risks_and_moments_are_strings(body: Seq<u8>, at: int, text: Seq<u8>)
    ensures
        json_merchant(body, at).1 == json_string(body, at).1,
        json_risk(body, at).1 == json_string(body, at).1,
        json_moment(body, at).1 == json_string(body, at).1,
        json_string(body, at).0 is None ==> json_merchant(body, at).0 is None && json_risk(
            body,
            at,
        ).0 is None && json_moment(body, at).0 is None,
        json_string(body, at).0 == Some(text) ==> json_merchant(body, at).0 == merchant_code(text)
            && json_risk(body, at).0 == Some(category_risk(text)) && json_moment(body, at).0
            == moment(text),
{
}

/// The slots hold the first 16 codes in their order, and what is no code where there are fewer.
pub proof fn law_sixteen_codes_are_kept(codes: Seq<u16>, slot: int)
    requires
        0 <= slot < 16,
    ensures
        first_codes(codes).len() == 16,
        slot < codes.len() ==> first_codes(codes)[slot] == codes[slot],
        slot >= codes.len() ==> first_codes(codes)[slot] == 0xffff,
{
}

/// A list of merchants is read item by item: it ends at a bracket, which may follow an item, a
/// comma or nothing; items have codes, and a comma stands between them. Anything else is no list.
pub proof fn law_lists_are_read_item_by_item(body: Seq<u8>, at: int, read: Seq<u16>)
    ensures
        ({
            let start = past_space(body, at);
            let item = json_merchant(body, start);
            let next = past_space(body, item.1);
            let opens = 0 <= start < body.len() && body[start] == 0x5b;
            let ends = 0 <= start < body.len() && body[start] == 0x5d;
            &&& opens ==> json_merchants(body, at) == json_merchants_from(body, start + 1, seq![])
            &&& !opens ==> json_merchants(body, at) == (None::<Seq<u16>>, start)
            &&& ends ==> json_merchants_from(body, at, read) == (Some(read), start + 1)
            &&& !ends && item.0 is None ==> json_merchants_from(body, at, read) == (
                None::<Seq<u16>>,
                item.1,
            )
            &&& !ends ==> (item.0 matches Some(code) ==> {
                &&& 0 <= next < body.len() && body[next] == 0x2c ==> json_merchants_from(
                    body,
                    at,
                    read,
                ) == json_merchants_from(body, next + 1, read.push(code))
                &&& 0 <= next < body.len() && body[next] == 0x5d ==> json_merchants_from(
                    body,
                    at,
                    read,
                ) == (Some(read.push(code)), next + 1)
                &&& !(0 <= next < body.len() && (body[next] == 0x2c || body[next] == 0x5d))
                    ==> json_merchants_from(body, at, read) == (None::<Seq<u16>>, next)
            })
        }),
{
}

} // verus!
