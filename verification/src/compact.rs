//! Requests as they are written, and that scanning one gives back what was written.

use crate::calendar::moment;
use crate::json::{
    byte_is, category_risk, first_codes, fitting_end, is_space, json_bool, json_decimal,
    json_merchants, json_merchants_from, json_string, json_u32, lemma_space_between, merchant_code,
    past_space, string_end, value_start, word_false, word_is, word_null, word_true, Numeral,
};
use crate::payload::{
    customer_part, last_part, merchant_part, next_bool, next_decimal, next_merchant,
    next_merchants, next_moment, next_risk, next_string, next_u32, object_start, scanned,
    terminal_part, transaction_part, CustomerView, LastView, MerchantView, ScannedView,
    TerminalView, TransactionView,
};
use crate::text::{decimal, digits_end, find, is_digit, lemma_decimal_grows};
use vstd::prelude::*;

verus! {

/// Only digits.
pub open spec fn all_digits(text: Seq<u8>) -> bool {
    forall|i: int| 0 <= i < text.len() ==> is_digit(#[trigger] text[i])
}

/// A text that stands in quotes as it is: no quotes and no backslashes.
pub open spec fn is_plain(text: Seq<u8>) -> bool {
    forall|i: int| 0 <= i < text.len() ==> #[trigger] text[i] != 0x22 && text[i] != 0x5c
}

/// Only white space.
pub open spec fn is_spacing(text: Seq<u8>) -> bool {
    forall|i: int|
        0 <= i < text.len() ==> #[trigger] text[i] == 0x20 || text[i] == 0x09 || text[i] == 0x0a
            || text[i] == 0x0d
}

/// What stands before the value of a member: a text, a colon and white space.
pub ghost struct Gap {
    pub text: Seq<u8>,
    pub space: Seq<u8>,
}

/// The text before the colon is anything without a colon.
pub open spec fn is_gap(gap: Gap) -> bool {
    &&& forall|i: int| 0 <= i < gap.text.len() ==> #[trigger] gap.text[i] != 0x3a
    &&& is_spacing(gap.space)
}

/// What comes before a member's value.
pub open spec fn lead(gap: Gap) -> Seq<u8> {
    gap.text + seq![0x3au8] + gap.space
}

/// What comes first, if anything does, is no part of a number: no digit, point or exponent.
pub open spec fn closes(text: Seq<u8>) -> bool {
    text.len() > 0 ==> !is_digit(text[0]) && text[0] != 0x2e && text[0] != 0x65 && text[0] != 0x45
}

/// A text in quotes.
pub open spec fn quoted(text: Seq<u8>) -> Seq<u8> {
    seq![0x22u8] + text + seq![0x22u8]
}

/// A number can be written: there are digits before the point.
pub open spec fn is_written(number: Numeral) -> bool {
    number.integer.len() > 0 && all_digits(number.integer) && all_digits(number.fraction)
}

/// A number, with a point where digits stand behind it.
pub open spec fn number_text(number: Numeral) -> Seq<u8> {
    (if number.negative {
        seq![0x2du8]
    } else {
        seq![]
    }) + number.integer + (if number.fraction.len() > 0 {
        seq![0x2eu8] + number.fraction
    } else {
        seq![]
    })
}

/// Digits that write a number that fits 32 bits.
pub open spec fn is_count(digits: Seq<u8>) -> bool {
    digits.len() > 0 && all_digits(digits) && decimal(digits) <= u32::MAX
}

/// A truth value.
pub open spec fn bool_text(value: bool) -> Seq<u8> {
    if value {
        word_true()
    } else {
        word_false()
    }
}

/// The white space before and behind each item of a list.
pub ghost struct Spacing {
    pub before: Seq<u8>,
    pub behind: Seq<u8>,
}

/// A text in quotes, with the white space around it.
pub open spec fn spaced(text: Seq<u8>, spacing: Spacing) -> Seq<u8> {
    spacing.before + quoted(text) + spacing.behind
}

/// Texts in quotes, with commas between them.
pub open spec fn joined(texts: Seq<Seq<u8>>, spacing: Spacing) -> Seq<u8>
    decreases texts.len(),
{
    if texts.len() == 0 {
        seq![]
    } else if texts.len() == 1 {
        spaced(texts[0], spacing)
    } else {
        spaced(texts[0], spacing) + seq![0x2cu8] + joined(texts.drop_first(), spacing)
    }
}

/// A list of texts.
pub open spec fn list_text(texts: Seq<Seq<u8>>, spacing: Spacing) -> Seq<u8> {
    seq![0x5bu8] + joined(texts, spacing) + seq![0x5du8]
}

/// A member: what comes before its value, and the value.
pub open spec fn member(gap: Gap, value: Seq<u8>) -> Seq<u8> {
    lead(gap) + value
}

/// The start of an object.
pub open spec fn opening(gap: Gap) -> Seq<u8> {
    member(gap, seq![0x7bu8])
}

/// Where a word stands that is made of two, each of the two stands at its place.
pub proof fn lemma_split(body: Seq<u8>, at: int, first: Seq<u8>, second: Seq<u8>)
    requires
        word_is(body, at, first + second),
    ensures
        word_is(body, at, first),
        word_is(body, at + first.len(), second),
{
    let whole = first + second;
    let found = body.subrange(at, at + whole.len());
    assert forall|i: int| 0 <= i < first.len() implies body[at + i] == first[i] by {
        assert(found[i] == whole[i]);
    }
    assert forall|i: int| 0 <= i < second.len() implies body[at + first.len() + i] == second[i] by {
        assert(found[first.len() + i] == whole[first.len() + i]);
    }
    assert(body.subrange(at, at + first.len()) =~= first);
    assert(body.subrange(at + first.len(), at + first.len() + second.len()) =~= second);
}

/// The bytes of a word, where it stands.
pub proof fn lemma_word_bytes(body: Seq<u8>, at: int, word: Seq<u8>)
    requires
        word_is(body, at, word),
    ensures
        forall|i: int| at <= i < at + word.len() ==> #[trigger] body[i] == word[i - at],
{
    let found = body.subrange(at, at + word.len());
    assert forall|i: int| at <= i < at + word.len() implies #[trigger] body[i] == word[i - at] by {
        assert(found[i - at] == word[i - at]);
    }
}

/// The first colon is found behind bytes that are none.
proof fn lemma_find(body: Seq<u8>, byte: u8, at: int, end: int)
    requires
        0 <= at <= end < body.len(),
        forall|i: int| at <= i < end ==> #[trigger] body[i] != byte,
        body[end] == byte,
    ensures
        find(body, byte, at) == end,
    decreases end - at,
{
    if at < end {
        lemma_find(body, byte, at + 1, end);
    }
}

/// White space that stands somewhere is skipped, up to what is none.
proof fn lemma_spacing(body: Seq<u8>, at: int, space: Seq<u8>)
    requires
        word_is(body, at, space),
        is_spacing(space),
        at + space.len() < body.len() ==> !is_space(body[at + space.len()]),
    ensures
        past_space(body, at) == at + space.len(),
{
    lemma_word_bytes(body, at, space);
    assert forall|i: int| at <= i < at + space.len() implies #[trigger] body[i] == 0x20 || body[i]
        == 0x09 || body[i] == 0x0a || body[i] == 0x0d by {
        assert(body[i] == space[i - at]);
    }
    lemma_space_between(body, at, at + space.len());
}

/// A member's value starts behind its colon and the white space there.
proof fn lemma_member(body: Seq<u8>, at: int, gap: Gap, value: Seq<u8>)
    requires
        word_is(body, at, member(gap, value)),
        is_gap(gap),
        value.len() > 0,
        !is_space(value[0]),
    ensures
        value_start(body, at) == Some(at + lead(gap).len()),
        word_is(body, at + lead(gap).len(), value),
        past_space(body, at + lead(gap).len()) == at + lead(gap).len(),
{
    let colon = at + gap.text.len();
    lemma_split(body, at, lead(gap), value);
    lemma_split(body, at, gap.text + seq![0x3au8], gap.space);
    lemma_split(body, at, gap.text, seq![0x3au8]);
    lemma_word_bytes(body, at, gap.text);
    lemma_word_bytes(body, colon, seq![0x3au8]);
    lemma_word_bytes(body, at + lead(gap).len(), value);
    assert forall|i: int| at <= i < colon implies #[trigger] body[i] != 0x3a by {
        assert(body[i] == gap.text[i - at]);
    }
    assert(body[colon] == 0x3a);
    lemma_find(body, 0x3a, at, colon);
    assert(body[at + lead(gap).len()] == value[0]);
    lemma_spacing(body, colon + 1, gap.space);
}

/// The end of a text without quotes and backslashes is found.
proof fn lemma_plain_end(body: Seq<u8>, at: int, end: int)
    requires
        0 <= at <= end < body.len(),
        forall|i: int| at <= i < end ==> #[trigger] body[i] != 0x22 && body[i] != 0x5c,
        body[end] == 0x22,
    ensures
        string_end(body, at) == end,
    decreases end - at,
{
    if at < end {
        lemma_plain_end(body, at + 1, end);
    }
}

/// A text in quotes is read back.
proof fn lemma_quoted(body: Seq<u8>, at: int, text: Seq<u8>)
    requires
        word_is(body, at, quoted(text)),
        is_plain(text),
    ensures
        json_string(body, at) == (Some(text), at + quoted(text).len()),
{
    lemma_split(body, at, seq![0x22u8] + text, seq![0x22u8]);
    lemma_split(body, at, seq![0x22u8], text);
    lemma_word_bytes(body, at, seq![0x22u8]);
    lemma_word_bytes(body, at + 1, text);
    lemma_word_bytes(body, at + 1 + text.len(), seq![0x22u8]);
    assert forall|i: int| at + 1 <= i < at + 1 + text.len() implies #[trigger] body[i] != 0x22
        && body[i] != 0x5c by {
        assert(body[i] == text[i - at - 1]);
    }
    assert(body[at] == 0x22);
    lemma_plain_end(body, at + 1, at + 1 + text.len());
}

/// A run of digits ends where the digits do.
proof fn lemma_digits_run(body: Seq<u8>, at: int, end: int)
    requires
        0 <= at <= end <= body.len(),
        forall|i: int| at <= i < end ==> is_digit(#[trigger] body[i]),
        end < body.len() ==> !is_digit(body[end]),
    ensures
        digits_end(body, at) == end,
    decreases end - at,
{
    if at < end {
        lemma_digits_run(body, at + 1, end);
    }
}

/// Every part of a run of digits fits 32 bits where the whole does.
proof fn lemma_fitting_run(body: Seq<u8>, start: int, at: int, end: int)
    requires
        0 <= start <= at <= end <= body.len(),
        forall|i: int| start <= i < end ==> is_digit(#[trigger] body[i]),
        end < body.len() ==> !is_digit(body[end]),
        decimal(body.subrange(start, end)) <= u32::MAX,
    ensures
        fitting_end(body, start, at) == end,
    decreases end - at,
{
    if at < end {
        lemma_decimal_grows(body, start, at + 1, end);
        lemma_fitting_run(body, start, at + 1, end);
    }
}

/// A count is read back, where no part of a number follows.
proof fn lemma_count(body: Seq<u8>, at: int, digits: Seq<u8>)
    requires
        word_is(body, at, digits),
        is_count(digits),
        closes(body.skip(at + digits.len())),
    ensures
        json_u32(body, at) == (Some(decimal(digits) as u32), at + digits.len()),
{
    let end = at + digits.len();
    lemma_word_bytes(body, at, digits);
    assert forall|i: int| at <= i < end implies is_digit(#[trigger] body[i]) by {
        assert(is_digit(digits[i - at]));
    }
    assert(end < body.len() ==> body[end] == body.skip(end)[0]);
    assert(is_digit(body[at]));
    lemma_digits_run(body, at, end);
    lemma_fitting_run(body, at, at, end);
}

/// A number is read back, where no part of a number follows.
proof fn lemma_number(body: Seq<u8>, at: int, number: Numeral)
    requires
        word_is(body, at, number_text(number)),
        is_written(number),
        closes(body.skip(at + number_text(number).len())),
    ensures
        json_decimal(body, at) == (Some(number), at + number_text(number).len()),
{
    let sign: Seq<u8> = if number.negative {
        seq![0x2du8]
    } else {
        seq![]
    };
    let tail: Seq<u8> = if number.fraction.len() > 0 {
        seq![0x2eu8] + number.fraction
    } else {
        seq![]
    };
    let start = at + sign.len();
    let point = start + number.integer.len();
    let end = point + tail.len();
    assert(number_text(number) =~= sign + number.integer + tail);
    lemma_split(body, at, sign + number.integer, tail);
    lemma_split(body, at, sign, number.integer);
    lemma_word_bytes(body, at, sign);
    lemma_word_bytes(body, start, number.integer);
    assert forall|i: int| start <= i < point implies is_digit(#[trigger] body[i]) by {
        assert(is_digit(number.integer[i - start]));
    }
    assert(is_digit(body[start]));
    assert(end < body.len() ==> body[end] == body.skip(end)[0]);
    assert(body.subrange(start, point) =~= number.integer);
    if number.fraction.len() > 0 {
        lemma_split(body, point, seq![0x2eu8], number.fraction);
        lemma_word_bytes(body, point, seq![0x2eu8]);
        lemma_word_bytes(body, point + 1, number.fraction);
        assert forall|i: int| point + 1 <= i < end implies is_digit(#[trigger] body[i]) by {
            assert(is_digit(number.fraction[i - point - 1]));
        }
        assert(body[point] == 0x2e);
        lemma_digits_run(body, start, point);
        lemma_digits_run(body, point + 1, end);
        assert(body.subrange(point + 1, end) =~= number.fraction);
    } else {
        lemma_digits_run(body, start, point);
        assert(number.fraction =~= seq![]);
    }
}

/// A truth value is read back.
proof fn lemma_bool(body: Seq<u8>, at: int, value: bool)
    requires
        word_is(body, at, bool_text(value)),
    ensures
        json_bool(body, at) == (Some(value), at + bool_text(value).len()),
{
    lemma_word_bytes(body, at, bool_text(value));
    assert(body[at] == bool_text(value)[0]);
    if !value && word_is(body, at, word_true()) {
        lemma_word_bytes(body, at, word_true());
        assert(body[at] == word_true()[0]);
    }
}

/// The codes of merchants' ids.
pub open spec fn codes_of(ids: Seq<Seq<u8>>) -> Seq<u16> {
    Seq::new(ids.len(), |i: int| merchant_code(ids[i])->0)
}

/// Every one of the ids has a code, and stands in quotes as it is.
pub open spec fn all_merchants(ids: Seq<Seq<u8>>) -> bool {
    forall|i: int|
        0 <= i < ids.len() ==> is_plain(#[trigger] ids[i]) && merchant_code(ids[i]) is Some
}

/// A merchant's id is read back with the white space around it.
proof fn lemma_spaced(body: Seq<u8>, at: int, id: Seq<u8>, spacing: Spacing)
    requires
        word_is(body, at, spaced(id, spacing)),
        is_plain(id),
        is_spacing(spacing.before),
        is_spacing(spacing.behind),
        at + spaced(id, spacing).len() < body.len() ==> !is_space(
            body[at + spaced(id, spacing).len()],
        ),
    ensures
        ({
            let start = at + spacing.before.len();
            let end = start + quoted(id).len();
            &&& past_space(body, at) == start
            &&& past_space(body, start) == start
            &&& byte_is(body, start, 0x22)
            &&& json_string(body, start) == (Some(id), end)
            &&& past_space(body, end) == at + spaced(id, spacing).len()
        }),
{
    let start = at + spacing.before.len();
    let end = start + quoted(id).len();
    lemma_split(body, at, spacing.before + quoted(id), spacing.behind);
    lemma_split(body, at, spacing.before, quoted(id));
    lemma_word_bytes(body, start, quoted(id));
    assert(body[start] == quoted(id)[0]);
    lemma_spacing(body, at, spacing.before);
    lemma_quoted(body, start, id);
    lemma_spacing(body, end, spacing.behind);
}

/// The rest of a list of merchants is read back.
proof fn lemma_merchants_from(
    body: Seq<u8>,
    at: int,
    ids: Seq<Seq<u8>>,
    spacing: Spacing,
    read: Seq<u16>,
)
    requires
        word_is(body, at, joined(ids, spacing) + seq![0x5du8]),
        all_merchants(ids),
        is_spacing(spacing.before),
        is_spacing(spacing.behind),
    ensures
        json_merchants_from(body, at, read) == (
            Some(read + codes_of(ids)),
            at + joined(ids, spacing).len() + 1,
        ),
    decreases ids.len(),
{
    let bracket = seq![0x5du8];
    lemma_split(body, at, joined(ids, spacing), bracket);
    lemma_word_bytes(body, at + joined(ids, spacing).len(), bracket);
    assert(body[at + joined(ids, spacing).len()] == 0x5d);
    if ids.len() == 0 {
        assert(read + codes_of(ids) =~= read);
    } else {
        let first = spaced(ids[0], spacing);
        let end = at + first.len();
        assert(is_plain(ids[0]));
        if ids.len() == 1 {
            lemma_spaced(body, at, ids[0], spacing);
            assert(read.push(merchant_code(ids[0])->0) =~= read + codes_of(ids));
        } else {
            let rest = ids.drop_first();
            let comma = seq![0x2cu8];
            let others = joined(rest, spacing) + bracket;
            assert(joined(ids, spacing) + bracket =~= first + comma + others);
            lemma_split(body, at, first + comma, others);
            lemma_split(body, at, first, comma);
            lemma_word_bytes(body, end, comma);
            assert(body[end] == 0x2c);
            lemma_spaced(body, at, ids[0], spacing);
            assert forall|i: int| 0 <= i < rest.len() implies is_plain(#[trigger] rest[i])
                && merchant_code(rest[i]) is Some by {
                assert(rest[i] == ids[i + 1]);
            }
            let code = merchant_code(ids[0])->0;
            lemma_merchants_from(body, end + 1, rest, spacing, read.push(code));
            assert(read.push(code) + codes_of(rest) =~= read + codes_of(ids));
        }
    }
}

/// A list of merchants is read back.
proof fn lemma_merchants(body: Seq<u8>, at: int, ids: Seq<Seq<u8>>, spacing: Spacing)
    requires
        word_is(body, at, list_text(ids, spacing)),
        all_merchants(ids),
        is_spacing(spacing.before),
        is_spacing(spacing.behind),
    ensures
        json_merchants(body, at) == (Some(codes_of(ids)), at + list_text(ids, spacing).len()),
{
    let rest = joined(ids, spacing) + seq![0x5du8];
    assert(list_text(ids, spacing) =~= seq![0x5bu8] + rest);
    lemma_split(body, at, seq![0x5bu8], rest);
    lemma_word_bytes(body, at, seq![0x5bu8]);
    assert(body[at] == 0x5b);
    lemma_merchants_from(body, at + 1, ids, spacing, seq![]);
    assert(seq![] + codes_of(ids) =~= codes_of(ids));
}

/// What is no part of a number stands where a member starts whose gap starts with it.
proof fn lemma_gap_closes(body: Seq<u8>, at: int, gap: Gap, value: Seq<u8>)
    requires
        word_is(body, at, member(gap, value)),
        closes(gap.text),
    ensures
        closes(body.skip(at)),
{
    lemma_word_bytes(body, at, member(gap, value));
    assert(body[at] == member(gap, value)[0]);
    assert(gap.text.len() == 0 ==> member(gap, value)[0] == 0x3a);
}

/// An object is entered behind its brace.
proof fn lemma_opening(body: Seq<u8>, at: int, gap: Gap)
    requires
        word_is(body, at, opening(gap)),
        is_gap(gap),
    ensures
        object_start(body, at) == Some(at + opening(gap).len()),
        value_start(body, at) == Some(at + lead(gap).len()),
        byte_is(body, at + lead(gap).len(), 0x7b),
{
    let brace = seq![0x7bu8];
    lemma_member(body, at, gap, brace);
    lemma_word_bytes(body, at + lead(gap).len(), brace);
    assert(body[at + lead(gap).len()] == 0x7b);
}

/// A member that is a text is read back.
proof fn lemma_text_member(body: Seq<u8>, at: int, gap: Gap, text: Seq<u8>)
    requires
        word_is(body, at, member(gap, quoted(text))),
        is_gap(gap),
        is_plain(text),
    ensures
        next_string(body, at) == Some((text, at + member(gap, quoted(text)).len())),
        next_risk(body, at) == Some((category_risk(text), at + member(gap, quoted(text)).len())),
        moment(text) matches Some(read) ==> next_moment(body, at) == Some(
            (read, at + member(gap, quoted(text)).len()),
        ),
        merchant_code(text) matches Some(code) ==> next_merchant(body, at) == Some(
            (code, at + member(gap, quoted(text)).len()),
        ),
{
    lemma_member(body, at, gap, quoted(text));
    lemma_quoted(body, at + lead(gap).len(), text);
}

/// A member that is a number is read back.
proof fn lemma_number_member(body: Seq<u8>, at: int, gap: Gap, number: Numeral)
    requires
        word_is(body, at, member(gap, number_text(number))),
        is_gap(gap),
        is_written(number),
        closes(body.skip(at + member(gap, number_text(number)).len())),
    ensures
        next_decimal(body, at) == Some((number, at + member(gap, number_text(number)).len())),
{
    assert(is_digit(number.integer[0]));
    lemma_member(body, at, gap, number_text(number));
    lemma_number(body, at + lead(gap).len(), number);
}

/// A member that is a count is read back.
proof fn lemma_count_member(body: Seq<u8>, at: int, gap: Gap, digits: Seq<u8>)
    requires
        word_is(body, at, member(gap, digits)),
        is_gap(gap),
        is_count(digits),
        closes(body.skip(at + member(gap, digits).len())),
    ensures
        next_u32(body, at) == Some((decimal(digits) as u32, at + member(gap, digits).len())),
{
    assert(is_digit(digits[0]));
    lemma_member(body, at, gap, digits);
    lemma_count(body, at + lead(gap).len(), digits);
}

/// A member that is a truth value is read back.
proof fn lemma_bool_member(body: Seq<u8>, at: int, gap: Gap, value: bool)
    requires
        word_is(body, at, member(gap, bool_text(value))),
        is_gap(gap),
    ensures
        next_bool(body, at) == Some((value, at + member(gap, bool_text(value)).len())),
{
    lemma_member(body, at, gap, bool_text(value));
    lemma_bool(body, at + lead(gap).len(), value);
}

/// A member that is a list of merchants is read back.
proof fn lemma_list_member(
    body: Seq<u8>,
    at: int,
    gap: Gap,
    ids: Seq<Seq<u8>>,
    spacing: Spacing,
)
    requires
        word_is(body, at, member(gap, list_text(ids, spacing))),
        is_gap(gap),
        all_merchants(ids),
        is_spacing(spacing.before),
        is_spacing(spacing.behind),
    ensures
        next_merchants(body, at) == Some(
            (codes_of(ids), at + member(gap, list_text(ids, spacing)).len()),
        ),
{
    lemma_member(body, at, gap, list_text(ids, spacing));
    lemma_merchants(body, at + lead(gap).len(), ids, spacing);
}

/// A last transaction as it is written.
pub ghost struct WrittenLast {
    pub timestamp: Seq<u8>,
    pub km_from_current: Numeral,
}

/// A request as it is written: texts without their quotes, counts as their digits.
pub ghost struct Written {
    pub id: Seq<u8>,
    pub amount: Numeral,
    pub installments: Seq<u8>,
    pub requested_at: Seq<u8>,
    pub customer_avg_amount: Numeral,
    pub tx_count_24h: Seq<u8>,
    pub known_merchants: Seq<Seq<u8>>,
    pub merchant_id: Seq<u8>,
    pub mcc: Seq<u8>,
    pub merchant_avg_amount: Numeral,
    pub is_online: bool,
    pub card_present: bool,
    pub km_from_home: Numeral,
    pub last_transaction: Option<WrittenLast>,
}

/// What stands around the values of a request: the gap before each, in their order, the white space
/// in the list of merchants, and what comes behind the last value. In the compact layout the texts
/// are `{"id"`, `,"transaction"`, `"amount"`, `,"installments"` and so on, and `}}`, and there is
/// no white space.
pub ghost struct Layout {
    pub gaps: Seq<Gap>,
    pub spacing: Spacing,
    pub tail: Seq<u8>,
}

impl Layout {
    /// There is a gap for each of the values, none holds another colon, and what follows a number
    /// is no part of one.
    pub open spec fn is_sound(self) -> bool {
        &&& self.gaps.len() == 20
        &&& forall|i: int| 0 <= i < 20 ==> is_gap(#[trigger] self.gaps[i])
        &&& closes(self.gaps[3].text)
        &&& closes(self.gaps[4].text)
        &&& closes(self.gaps[7].text)
        &&& closes(self.gaps[8].text)
        &&& closes(self.gaps[13].text)
        &&& closes(self.gaps[17].text)
        &&& is_spacing(self.spacing.before)
        &&& is_spacing(self.spacing.behind)
        &&& closes(self.tail)
    }
}

impl Written {
    /// Texts need no escapes, numbers have no exponents, counts fit 32 bits, moments can be read,
    /// and merchants have codes.
    pub open spec fn is_sound(self) -> bool {
        &&& is_plain(self.id)
        &&& is_written(self.amount)
        &&& is_count(self.installments)
        &&& is_plain(self.requested_at) && moment(self.requested_at) is Some
        &&& is_written(self.customer_avg_amount)
        &&& is_count(self.tx_count_24h)
        &&& all_merchants(self.known_merchants)
        &&& is_plain(self.merchant_id) && merchant_code(self.merchant_id) is Some
        &&& is_plain(self.mcc)
        &&& is_written(self.merchant_avg_amount)
        &&& is_written(self.km_from_home)
        &&& self.last_transaction matches Some(last) ==> is_plain(last.timestamp) && moment(
            last.timestamp,
        ) is Some && is_written(last.km_from_current)
    }

    /// The transaction, written.
    pub open spec fn transaction_text(self, gaps: Seq<Gap>) -> Seq<u8> {
        opening(gaps[1]) + member(gaps[2], number_text(self.amount)) + member(
            gaps[3],
            self.installments,
        ) + member(gaps[4], quoted(self.requested_at))
    }

    /// The customer, written.
    pub open spec fn customer_text(self, layout: Layout) -> Seq<u8> {
        let gaps = layout.gaps;
        opening(gaps[5]) + member(gaps[6], number_text(self.customer_avg_amount)) + member(
            gaps[7],
            self.tx_count_24h,
        ) + member(gaps[8], list_text(self.known_merchants, layout.spacing))
    }

    /// The merchant, written.
    pub open spec fn merchant_text(self, gaps: Seq<Gap>) -> Seq<u8> {
        opening(gaps[9]) + member(gaps[10], quoted(self.merchant_id)) + member(
            gaps[11],
            quoted(self.mcc),
        ) + member(gaps[12], number_text(self.merchant_avg_amount))
    }

    /// The terminal, written.
    pub open spec fn terminal_text(self, gaps: Seq<Gap>) -> Seq<u8> {
        opening(gaps[13]) + member(gaps[14], bool_text(self.is_online)) + member(
            gaps[15],
            bool_text(self.card_present),
        ) + member(gaps[16], number_text(self.km_from_home))
    }

    /// The last transaction, written.
    pub open spec fn last_text(self, gaps: Seq<Gap>) -> Seq<u8> {
        match self.last_transaction {
            Some(last) => opening(gaps[17]) + member(gaps[18], quoted(last.timestamp)) + member(
                gaps[19],
                number_text(last.km_from_current),
            ),
            None => member(gaps[17], word_null()),
        }
    }

    /// The request, written.
    pub open spec fn text(self, layout: Layout) -> Seq<u8> {
        member(layout.gaps[0], quoted(self.id)) + self.transaction_text(layout.gaps)
            + self.customer_text(layout) + self.merchant_text(layout.gaps)
            + self.terminal_text(layout.gaps) + self.last_text(layout.gaps) + layout.tail
    }

    /// What the request says.
    pub open spec fn meaning(self) -> ScannedView {
        ScannedView {
            transaction: TransactionView {
                amount: self.amount,
                installments: decimal(self.installments) as u32,
                requested_at: moment(self.requested_at)->0,
            },
            customer: CustomerView {
                avg_amount: self.customer_avg_amount,
                tx_count_24h: decimal(self.tx_count_24h) as u32,
                known_merchants: first_codes(codes_of(self.known_merchants)),
            },
            merchant: MerchantView {
                id: merchant_code(self.merchant_id)->0,
                risk: category_risk(self.mcc),
                avg_amount: self.merchant_avg_amount,
            },
            terminal: TerminalView {
                is_online: self.is_online,
                card_present: self.card_present,
                km_from_home: self.km_from_home,
            },
            last: match self.last_transaction {
                Some(last) => Some(
                    LastView {
                        timestamp: moment(last.timestamp)->0,
                        km_from_current: last.km_from_current,
                    },
                ),
                None => None,
            },
        }
    }

    /// The transaction is read back.
    proof fn lemma_transaction(self, layout: Layout, body: Seq<u8>, at: int)
        requires
            self.is_sound(),
            layout.is_sound(),
            word_is(body, at, self.transaction_text(layout.gaps)),
        ensures
            transaction_part(body, at) == Some(
                (self.meaning().transaction, at + self.transaction_text(layout.gaps).len()),
            ),
    {
        let gaps = layout.gaps;
        let a = opening(gaps[1]);
        let b = member(gaps[2], number_text(self.amount));
        let c = member(gaps[3], self.installments);
        let d = member(gaps[4], quoted(self.requested_at));
        lemma_split(body, at, a + b + c, d);
        lemma_split(body, at, a + b, c);
        lemma_split(body, at, a, b);
        lemma_opening(body, at, gaps[1]);
        lemma_gap_closes(body, at + (a + b).len(), gaps[3], self.installments);
        lemma_number_member(body, at + a.len(), gaps[2], self.amount);
        lemma_gap_closes(body, at + (a + b + c).len(), gaps[4], quoted(self.requested_at));
        lemma_count_member(body, at + (a + b).len(), gaps[3], self.installments);
        lemma_text_member(body, at + (a + b + c).len(), gaps[4], self.requested_at);
    }

    /// The customer is read back.
    proof fn lemma_customer(self, layout: Layout, body: Seq<u8>, at: int)
        requires
            self.is_sound(),
            layout.is_sound(),
            word_is(body, at, self.customer_text(layout)),
        ensures
            customer_part(body, at) == Some(
                (self.meaning().customer, at + self.customer_text(layout).len()),
            ),
    {
        let gaps = layout.gaps;
        let a = opening(gaps[5]);
        let b = member(gaps[6], number_text(self.customer_avg_amount));
        let c = member(gaps[7], self.tx_count_24h);
        let d = member(gaps[8], list_text(self.known_merchants, layout.spacing));
        lemma_split(body, at, a + b + c, d);
        lemma_split(body, at, a + b, c);
        lemma_split(body, at, a, b);
        lemma_opening(body, at, gaps[5]);
        lemma_gap_closes(body, at + (a + b).len(), gaps[7], self.tx_count_24h);
        lemma_number_member(body, at + a.len(), gaps[6], self.customer_avg_amount);
        let list = list_text(self.known_merchants, layout.spacing);
        lemma_gap_closes(body, at + (a + b + c).len(), gaps[8], list);
        lemma_count_member(body, at + (a + b).len(), gaps[7], self.tx_count_24h);
        lemma_list_member(
            body,
            at + (a + b + c).len(),
            gaps[8],
            self.known_merchants,
            layout.spacing,
        );
    }

    /// The merchant is read back, where no part of a number follows.
    proof fn lemma_merchant(self, layout: Layout, body: Seq<u8>, at: int)
        requires
            self.is_sound(),
            layout.is_sound(),
            word_is(body, at, self.merchant_text(layout.gaps)),
            closes(body.skip(at + self.merchant_text(layout.gaps).len())),
        ensures
            merchant_part(body, at) == Some(
                (self.meaning().merchant, at + self.merchant_text(layout.gaps).len()),
            ),
    {
        let gaps = layout.gaps;
        let a = opening(gaps[9]);
        let b = member(gaps[10], quoted(self.merchant_id));
        let c = member(gaps[11], quoted(self.mcc));
        let d = member(gaps[12], number_text(self.merchant_avg_amount));
        lemma_split(body, at, a + b + c, d);
        lemma_split(body, at, a + b, c);
        lemma_split(body, at, a, b);
        lemma_opening(body, at, gaps[9]);
        lemma_text_member(body, at + a.len(), gaps[10], self.merchant_id);
        lemma_text_member(body, at + (a + b).len(), gaps[11], self.mcc);
        lemma_number_member(body, at + (a + b + c).len(), gaps[12], self.merchant_avg_amount);
    }

    /// The terminal is read back, where no part of a number follows.
    proof fn lemma_terminal(self, layout: Layout, body: Seq<u8>, at: int)
        requires
            self.is_sound(),
            layout.is_sound(),
            word_is(body, at, self.terminal_text(layout.gaps)),
            closes(body.skip(at + self.terminal_text(layout.gaps).len())),
        ensures
            terminal_part(body, at) == Some(
                (self.meaning().terminal, at + self.terminal_text(layout.gaps).len()),
            ),
    {
        let gaps = layout.gaps;
        let a = opening(gaps[13]);
        let b = member(gaps[14], bool_text(self.is_online));
        let c = member(gaps[15], bool_text(self.card_present));
        let d = member(gaps[16], number_text(self.km_from_home));
        lemma_split(body, at, a + b + c, d);
        lemma_split(body, at, a + b, c);
        lemma_split(body, at, a, b);
        lemma_opening(body, at, gaps[13]);
        lemma_bool_member(body, at + a.len(), gaps[14], self.is_online);
        lemma_bool_member(body, at + (a + b).len(), gaps[15], self.card_present);
        lemma_number_member(body, at + (a + b + c).len(), gaps[16], self.km_from_home);
    }

    /// The last transaction is read back, where no part of a number follows.
    proof fn lemma_last(self, layout: Layout, body: Seq<u8>, at: int)
        requires
            self.is_sound(),
            layout.is_sound(),
            word_is(body, at, self.last_text(layout.gaps)),
            closes(body.skip(at + self.last_text(layout.gaps).len())),
        ensures
            last_part(body, at) == Some(self.meaning().last),
    {
        let gaps = layout.gaps;
        match self.last_transaction {
            Some(last) => {
                let a = opening(gaps[17]);
                let b = member(gaps[18], quoted(last.timestamp));
                let c = member(gaps[19], number_text(last.km_from_current));
                lemma_split(body, at, a + b, c);
                lemma_split(body, at, a, b);
                lemma_opening(body, at, gaps[17]);
                let start = at + lead(gaps[17]).len();
                assert(past_space(body, start) == start);
                if word_is(body, start, word_null()) {
                    lemma_word_bytes(body, start, word_null());
                    assert(body[start] == word_null()[0]);
                }
                lemma_text_member(body, at + a.len(), gaps[18], last.timestamp);
                lemma_number_member(body, at + (a + b).len(), gaps[19], last.km_from_current);
            },
            None => {
                lemma_member(body, at, gaps[17], word_null());
            },
        }
    }
}

/// Where a text stands that starts with no part of a number, no part of one stands.
proof fn lemma_text_closes(body: Seq<u8>, at: int, text: Seq<u8>)
    requires
        word_is(body, at, text),
        closes(text),
        text.len() > 0 || at == body.len(),
    ensures
        closes(body.skip(at)),
{
    lemma_word_bytes(body, at, text);
    assert(text.len() > 0 ==> body[at] == text[0]);
}

/// The terminal and the last transaction start as their first gaps do.
proof fn lemma_parts_close(written: Written, layout: Layout)
    requires
        layout.is_sound(),
    ensures
        closes(written.terminal_text(layout.gaps)),
        closes(written.last_text(layout.gaps)),
        written.terminal_text(layout.gaps).len() > 0,
        written.last_text(layout.gaps).len() > 0,
{
    let terminal = layout.gaps[13].text;
    let last = layout.gaps[17].text;
    assert(written.terminal_text(layout.gaps)[0] == if terminal.len() > 0 {
        terminal[0]
    } else {
        0x3au8
    });
    assert(written.last_text(layout.gaps)[0] == if last.len() > 0 {
        last[0]
    } else {
        0x3au8
    });
}

/// The parts of a text stand one behind the other.
proof fn lemma_parts_stand(
    body: Seq<u8>,
    a: Seq<u8>,
    b: Seq<u8>,
    c: Seq<u8>,
    d: Seq<u8>,
    e: Seq<u8>,
    f: Seq<u8>,
    tail: Seq<u8>,
)
    requires
        body == a + b + c + d + e + f + tail,
    ensures
        word_is(body, 0, a),
        word_is(body, a.len() as int, b),
        word_is(body, (a.len() + b.len()) as int, c),
        word_is(body, (a.len() + b.len() + c.len()) as int, d),
        word_is(body, (a.len() + b.len() + c.len() + d.len()) as int, e),
        word_is(body, (a.len() + b.len() + c.len() + d.len() + e.len()) as int, f),
        word_is(body, (a.len() + b.len() + c.len() + d.len() + e.len() + f.len()) as int, tail),
{
    assert(body.subrange(0, body.len() as int) =~= body);
    lemma_split(body, 0, a + b + c + d + e + f, tail);
    lemma_split(body, 0, a + b + c + d + e, f);
    lemma_split(body, 0, a + b + c + d, e);
    lemma_split(body, 0, a + b + c, d);
    lemma_split(body, 0, a + b, c);
    lemma_split(body, 0, a, b);
}

/// Scanning gives back what was written, whatever the members are called: for every request whose
/// texts need no escapes and whose numbers need no exponents, laid out with its members in their
/// order, the scan succeeds and reads the values that were written.
pub proof fn law_written_requests_are_read_back(written: Written, layout: Layout)
    requires
        written.is_sound(),
        layout.is_sound(),
    ensures
        scanned(written.text(layout)) == Some(written.meaning()),
{
    let body = written.text(layout);
    let a = member(layout.gaps[0], quoted(written.id));
    let b = written.transaction_text(layout.gaps);
    let c = written.customer_text(layout);
    let d = written.merchant_text(layout.gaps);
    let e = written.terminal_text(layout.gaps);
    let f = written.last_text(layout.gaps);
    let transaction = a.len() as int;
    let customer = transaction + b.len();
    let merchant = customer + c.len();
    let terminal = merchant + d.len();
    let last = terminal + e.len();
    let end = last + f.len();
    lemma_parts_stand(body, a, b, c, d, e, f, layout.tail);
    lemma_parts_close(written, layout);
    lemma_text_closes(body, terminal, e);
    lemma_text_closes(body, last, f);
    lemma_text_closes(body, end, layout.tail);
    assert(next_string(body, 0) == Some((written.id, transaction))) by {
        lemma_text_member(body, 0, layout.gaps[0], written.id);
    }
    assert(transaction_part(body, transaction) == Some((written.meaning().transaction, customer)))
        by {
        written.lemma_transaction(layout, body, transaction);
    }
    assert(customer_part(body, customer) == Some((written.meaning().customer, merchant))) by {
        written.lemma_customer(layout, body, customer);
    }
    assert(merchant_part(body, merchant) == Some((written.meaning().merchant, terminal))) by {
        written.lemma_merchant(layout, body, merchant);
    }
    assert(terminal_part(body, terminal) == Some((written.meaning().terminal, last))) by {
        written.lemma_terminal(layout, body, terminal);
    }
    assert(last_part(body, last) == Some(written.meaning().last)) by {
        written.lemma_last(layout, body, last);
    }
}

} // verus!
