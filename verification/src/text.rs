//! Digits, lines and words in byte slices.

use vstd::arithmetic::power::{lemma_pow0, lemma_pow1, lemma_pow_adds, pow};
use vstd::prelude::*;

verus! {

/// An ASCII digit.
pub open spec fn is_digit(byte: u8) -> bool {
    0x30 <= byte <= 0x39
}

/// Where the run of digits that starts at `at` ends.
pub open spec fn digits_end(bytes: Seq<u8>, at: int) -> int
    decreases bytes.len() - at,
{
    if 0 <= at < bytes.len() && is_digit(bytes[at]) {
        digits_end(bytes, at + 1)
    } else {
        at
    }
}

/// The number that a sequence of digits writes in decimal.
pub open spec fn decimal(digits: Seq<u8>) -> int
    decreases digits.len(),
{
    if digits.len() == 0 {
        0
    } else {
        10 * decimal(digits.drop_last()) + (digits.last() - 0x30)
    }
}

/// The first position from `at` on that holds the byte; the end of the bytes where none does.
pub open spec fn find(bytes: Seq<u8>, byte: u8, at: int) -> int
    decreases bytes.len() - at,
{
    if at < bytes.len() && bytes[at] != byte {
        find(bytes, byte, at + 1)
    } else {
        at
    }
}

/// The letter in lower case; any other byte as it is.
pub open spec fn lower(byte: u8) -> u8 {
    if 0x41 <= byte <= 0x5a {
        (byte + 0x20) as u8
    } else {
        byte
    }
}

/// A space or a tab.
pub open spec fn is_blank(byte: u8) -> bool {
    byte == 0x20 || byte == 0x09
}

/// Without the carriage return at the end, if there is one.
pub open spec fn without_cr(line: Seq<u8>) -> Seq<u8> {
    if line.len() > 0 && line.last() == 0x0d {
        line.drop_last()
    } else {
        line
    }
}

/// Without the blanks at the start.
pub open spec fn without_leading(value: Seq<u8>) -> Seq<u8>
    decreases value.len(),
{
    if value.len() > 0 && is_blank(value[0]) {
        without_leading(value.drop_first())
    } else {
        value
    }
}

/// Without the blanks and carriage returns at the end.
pub open spec fn without_trailing(value: Seq<u8>) -> Seq<u8>
    decreases value.len(),
{
    if value.len() > 0 && (is_blank(value.last()) || value.last() == 0x0d) {
        without_trailing(value.drop_last())
    } else {
        value
    }
}

/// The number that the digits write, or nothing where a byte is no digit.
pub fn digits(bytes: &[u8]) -> (value: Option<u32>)
    requires
        decimal(bytes@.take(digits_end(bytes@, 0))) <= u32::MAX,
    ensures
        value == if digits_end(bytes@, 0) == bytes@.len() {
            Some(decimal(bytes@) as u32)
        } else {
            None
        },
{
    let mut value: u32 = 0;
    let mut at: usize = 0;
    while at < bytes.len()
        invariant
            at <= bytes.len(),
            value == decimal(bytes@.take(at as int)),
            digits_end(bytes@, at as int) == digits_end(bytes@, 0),
            decimal(bytes@.take(digits_end(bytes@, 0))) <= u32::MAX,
        decreases bytes.len() - at,
    {
        let byte: u8 = bytes[at];
        if !(byte >= 0x30 && byte <= 0x39) {
            return None;
        }
        proof {
            let run = digits_end(bytes@, 0);
            lemma_digits_end(bytes@, 0);
            lemma_digits_end(bytes@, at + 1);
            lemma_decimal_grows(bytes@, 0, at + 1, run);
            assert(bytes@.take(at + 1) =~= bytes@.subrange(0, at + 1));
            assert(bytes@.take(run) =~= bytes@.subrange(0, run));
            assert(bytes@.take(at + 1).drop_last() =~= bytes@.take(at as int));
        }
        value = value * 10 + (byte - 0x30) as u32;
        at = at + 1;
    }
    assert(bytes@.take(at as int) =~= bytes@);
    Some(value)
}

/// A run of digits ends where it starts or later, within the bytes, and holds only digits.
pub proof fn lemma_digits_end(bytes: Seq<u8>, at: int)
    ensures
        at <= digits_end(bytes, at),
        0 <= at <= bytes.len() ==> digits_end(bytes, at) <= bytes.len(),
        forall|i: int| at <= i < digits_end(bytes, at) ==> is_digit(#[trigger] bytes[i]),
    decreases bytes.len() - at,
{
    if 0 <= at < bytes.len() && is_digit(bytes[at]) {
        lemma_digits_end(bytes, at + 1);
    }
}

/// A number only grows with more digits.
pub proof fn lemma_decimal_grows(bytes: Seq<u8>, start: int, middle: int, end: int)
    requires
        0 <= start <= middle <= end <= bytes.len(),
        forall|i: int| start <= i < end ==> is_digit(#[trigger] bytes[i]),
    ensures
        0 <= decimal(bytes.subrange(start, middle)) <= decimal(bytes.subrange(start, end)),
    decreases end - start,
{
    if start < end {
        let whole = bytes.subrange(start, end);
        assert(whole.drop_last() =~= bytes.subrange(start, end - 1));
        assert(is_digit(bytes[end - 1]));
        if middle < end {
            lemma_decimal_grows(bytes, start, middle, end - 1);
        } else {
            lemma_decimal_grows(bytes, start, start, end - 1);
        }
    }
}

/// The part of the line before the carriage return at its end, if there is one.
pub fn trim_cr(value: &[u8]) -> (trimmed: &[u8])
    ensures
        trimmed@ == without_cr(value@),
{
    let len: usize = value.len();
    if len > 0 && value[len - 1] == 0x0d {
        let trimmed = &value[0..len - 1];
        assert(trimmed@ =~= value@.drop_last());
        trimmed
    } else {
        value
    }
}

/// The value without blanks around it, and without carriage returns behind it.
pub fn trim_space(value: &[u8]) -> (trimmed: &[u8])
    ensures
        trimmed@ == without_trailing(without_leading(value@)),
{
    let mut start: usize = 0;
    assert(value@.subrange(0, value@.len() as int) =~= value@);
    while start < value.len() && (value[start] == 0x20 || value[start] == 0x09)
        invariant
            start <= value.len(),
            without_leading(value@.subrange(start as int, value@.len() as int)) == without_leading(
                value@,
            ),
        decreases value.len() - start,
    {
        assert(value@.subrange(start as int, value@.len() as int).drop_first() =~= value@.subrange(
            start + 1,
            value@.len() as int,
        ));
        start = start + 1;
    }
    let mut end: usize = value.len();
    while end > start && (value[end - 1] == 0x20 || value[end - 1] == 0x09 || value[end - 1]
        == 0x0d)
        invariant
            start <= end <= value.len(),
            without_trailing(value@.subrange(start as int, end as int)) == without_trailing(
                without_leading(value@),
            ),
        decreases end - start,
    {
        assert(value@.subrange(start as int, end as int).drop_last() =~= value@.subrange(
            start as int,
            end - 1,
        ));
        end = end - 1;
    }
    &value[start..end]
}

/// Whether the two are equal but for the case of ASCII letters.
pub fn eq_ascii_case(left: &[u8], right: &[u8]) -> (answer: bool)
    ensures
        answer == (left@.map_values(|b: u8| lower(b)) == right@.map_values(|b: u8| lower(b))),
{
    let ghost a = left@.map_values(|b: u8| lower(b));
    let ghost b = right@.map_values(|b: u8| lower(b));
    if left.len() != right.len() {
        assert(a.len() != b.len());
        return false;
    }
    let mut at: usize = 0;
    while at < left.len()
        invariant
            left.len() == right.len(),
            at <= left.len(),
            a == left@.map_values(|b: u8| lower(b)),
            b == right@.map_values(|b: u8| lower(b)),
            forall|i: int| 0 <= i < at ==> #[trigger] a[i] == b[i],
        decreases left.len() - at,
    {
        if to_lower(left[at]) != to_lower(right[at]) {
            assert(a[at as int] != b[at as int]);
            return false;
        }
        at = at + 1;
    }
    assert(a =~= b);
    true
}

/// The letter in lower case; any other byte as it is.
fn to_lower(byte: u8) -> (lowered: u8)
    ensures
        lowered == lower(byte),
{
    if byte >= 0x41 && byte <= 0x5a {
        byte + 0x20
    } else {
        byte
    }
}

/// The first position from `at` on that holds the byte; the end where none does.
pub fn find_byte(bytes: &[u8], byte: u8, at: usize) -> (position: usize)
    requires
        at <= bytes@.len(),
    ensures
        position == find(bytes@, byte, at as int),
        at <= position <= bytes@.len(),
{
    let mut position: usize = at;
    while position < bytes.len() && bytes[position] != byte
        invariant
            at <= position <= bytes.len(),
            find(bytes@, byte, at as int) == find(bytes@, byte, position as int),
        decreases bytes.len() - position,
    {
        position = position + 1;
    }
    position
}

/// Whether the two hold the same bytes.
pub fn same_bytes(left: &[u8], right: &[u8]) -> (answer: bool)
    ensures
        answer == (left@ == right@),
{
    if left.len() != right.len() {
        return false;
    }
    let mut at: usize = 0;
    while at < left.len()
        invariant
            left.len() == right.len(),
            at <= left.len(),
            forall|i: int| 0 <= i < at ==> #[trigger] left@[i] == right@[i],
        decreases left.len() - at,
    {
        if left[at] != right[at] {
            return false;
        }
        at = at + 1;
    }
    assert(left@ =~= right@);
    true
}

/// Whether the two hold the same characters.
pub fn same_text(left: &str, right: &str) -> (answer: bool)
    ensures
        answer == (left@ == right@),
{
    proof {
        vstd::utf8::encode_utf8_decode_utf8(left@);
        vstd::utf8::encode_utf8_decode_utf8(right@);
    }
    same_bytes(left.as_bytes(), right.as_bytes())
}

/// A number is written by place: digits in front of others count ten times as much for each of
/// these, and a single digit counts from 0 to 9.
pub proof fn law_decimals_are_positional(front: Seq<u8>, back: Seq<u8>)
    ensures
        decimal(front + back) == decimal(front) * pow(10, back.len()) + decimal(back),
        decimal(Seq::<u8>::empty()) == 0,
        back.len() == 1 ==> decimal(back) == back[0] - 0x30,
    decreases back.len(),
{
    lemma_pow0(10);
    if back.len() == 0 {
        assert(front + back =~= front);
    } else {
        let less = back.drop_last();
        law_decimals_are_positional(front, less);
        assert((front + back).drop_last() =~= front + less);
        assert((front + back).last() == back.last());
        let power = pow(10, less.len());
        lemma_pow_adds(10, less.len(), 1);
        lemma_pow1(10);
        assert(10 * (decimal(front) * power) == decimal(front) * (power * 10)) by (nonlinear_arith);
        if back.len() == 1 {
            assert(less =~= seq![]);
        }
    }
}

/// A byte is found at its first place from a position on: none of the bytes before that is it.
pub proof fn law_bytes_are_found_at_their_first_place(bytes: Seq<u8>, byte: u8, at: int)
    requires
        0 <= at <= bytes.len(),
    ensures
        at <= find(bytes, byte, at) <= bytes.len(),
        forall|i: int| at <= i < find(bytes, byte, at) ==> #[trigger] bytes[i] != byte,
        find(bytes, byte, at) < bytes.len() ==> bytes[find(bytes, byte, at)] == byte,
    decreases bytes.len() - at,
{
    if at < bytes.len() && bytes[at] != byte {
        law_bytes_are_found_at_their_first_place(bytes, byte, at + 1);
    }
}

/// A run of digits is as long as digits follow each other.
pub proof fn law_digits_run_to_the_first_other_byte(bytes: Seq<u8>, at: int)
    requires
        0 <= at <= bytes.len(),
    ensures
        at <= digits_end(bytes, at) <= bytes.len(),
        forall|i: int| at <= i < digits_end(bytes, at) ==> 0x30 <= #[trigger] bytes[i] <= 0x39,
        digits_end(bytes, at) < bytes.len() ==> !(0x30 <= bytes[digits_end(bytes, at)] <= 0x39),
    decreases bytes.len() - at,
{
    if at < bytes.len() && is_digit(bytes[at]) {
        law_digits_run_to_the_first_other_byte(bytes, at + 1);
    }
}

/// A line loses the one carriage return at its end, and nothing else.
pub proof fn law_lines_lose_one_carriage_return(line: Seq<u8>)
    ensures
        without_cr(line + seq![0x0du8]) == line,
        line.len() == 0 || line[line.len() - 1] != 0x0d ==> without_cr(line) == line,
{
    let ended = line + seq![0x0du8];
    assert(ended.last() == 0x0d);
    assert(ended.drop_last() =~= line);
}

/// Blanks in front of a value and blanks and carriage returns behind it are taken away, and nothing
/// between them.
pub proof fn law_values_lose_what_is_around_them(front: Seq<u8>, core: Seq<u8>, back: Seq<u8>)
    requires
        forall|i: int| 0 <= i < front.len() ==> #[trigger] front[i] == 0x20 || front[i] == 0x09,
        forall|i: int|
            0 <= i < back.len() ==> #[trigger] back[i] == 0x20 || back[i] == 0x09 || back[i]
                == 0x0d,
        core.len() > 0,
        core[0] != 0x20 && core[0] != 0x09,
        core[core.len() - 1] != 0x20 && core[core.len() - 1] != 0x09 && core[core.len() - 1]
            != 0x0d,
    ensures
        without_trailing(without_leading(front + core + back)) == core,
    decreases front.len() + back.len(),
{
    let value = front + core + back;
    if front.len() > 0 {
        let less = front.drop_first();
        assert(value[0] == front[0]);
        assert(value.drop_first() =~= less + core + back);
        law_values_lose_what_is_around_them(less, core, back);
    } else {
        assert(value[0] == core[0]);
        assert(without_leading(value) == value);
        lemma_back_is_dropped(core, back);
        assert(value =~= core + back);
    }
}

/// What is blank behind a value is dropped.
proof fn lemma_back_is_dropped(core: Seq<u8>, back: Seq<u8>)
    requires
        forall|i: int|
            0 <= i < back.len() ==> #[trigger] back[i] == 0x20 || back[i] == 0x09 || back[i]
                == 0x0d,
        core.len() > 0,
        core[core.len() - 1] != 0x20 && core[core.len() - 1] != 0x09 && core[core.len() - 1]
            != 0x0d,
    ensures
        without_trailing(core + back) == core,
    decreases back.len(),
{
    let value = core + back;
    if back.len() > 0 {
        assert(value.last() == back[back.len() - 1]);
        assert(value.drop_last() =~= core + back.drop_last());
        lemma_back_is_dropped(core, back.drop_last());
    } else {
        assert(value =~= core);
    }
}

/// Nothing is left of a value that is blank throughout.
pub proof fn law_blank_values_are_empty(value: Seq<u8>)
    requires
        forall|i: int|
            0 <= i < value.len() ==> #[trigger] value[i] == 0x20 || value[i] == 0x09 || value[i]
                == 0x0d,
    ensures
        without_trailing(without_leading(value)) == Seq::<u8>::empty(),
    decreases value.len(),
{
    if value.len() > 0 && is_blank(value[0]) {
        law_blank_values_are_empty(value.drop_first());
    } else {
        lemma_blank_is_dropped(value);
    }
}

/// What is blank throughout is dropped from its end on.
proof fn lemma_blank_is_dropped(value: Seq<u8>)
    requires
        forall|i: int|
            0 <= i < value.len() ==> #[trigger] value[i] == 0x20 || value[i] == 0x09 || value[i]
                == 0x0d,
    ensures
        without_trailing(value) == Seq::<u8>::empty(),
    decreases value.len(),
{
    if value.len() > 0 {
        assert(value.last() == value[value.len() - 1]);
        lemma_blank_is_dropped(value.drop_last());
    } else {
        assert(value =~= seq![]);
    }
}

/// Two bytes are the same but for case where they are equal, or one is a capital letter and the
/// other the small letter 32 above it.
pub proof fn law_case_is_all_that_may_differ(left: u8, right: u8)
    ensures
        lower(left) == lower(right) <==> left == right || (0x41 <= left <= 0x5a && right == left
            + 32) || (0x41 <= right <= 0x5a && left == right + 32),
{
}

} // verus!
