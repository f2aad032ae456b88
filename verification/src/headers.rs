//! Requests line by line: a first line, header lines, a blank line and a body.

use crate::http::{
    content_length, declared, end_fits, header_end, is_header_end, length_in, remainder, request,
    requests, route_of, text_bytes, Asked, RequestView,
};
use crate::text::{
    decimal, digits_end, find, is_blank, law_bytes_are_found_at_their_first_place,
    law_digits_run_to_the_first_other_byte, law_lines_lose_one_carriage_return, lower, without_cr,
    without_leading, without_trailing,
};
use vstd::prelude::*;

verus! {

/// A line without its line feed; a carriage return may stand before that.
pub open spec fn is_line(line: Seq<u8>) -> bool {
    forall|i: int| 0 <= i < line.len() ==> #[trigger] line[i] != 0x0a
}

/// Lines with line feeds between them. With a carriage return at the end of each but the last, this
/// is how they are usually sent.
pub open spec fn joined_lines(lines: Seq<Seq<u8>>) -> Seq<u8>
    decreases lines.len(),
{
    if lines.len() == 0 {
        seq![]
    } else if lines.len() == 1 {
        lines[0]
    } else {
        lines[0] + seq![0x0au8] + joined_lines(lines.drop_first())
    }
}

/// `content-length`.
pub open spec fn length_name() -> Seq<u8> {
    seq![
        0x63u8,
        0x6f,
        0x6e,
        0x74,
        0x65,
        0x6e,
        0x74,
        0x2d,
        0x6c,
        0x65,
        0x6e,
        0x67,
        0x74,
        0x68,
    ]
}

/// `content-length`, each letter small or capital.
pub open spec fn is_length_name(name: Seq<u8>) -> bool {
    &&& name.len() == 14
    &&& forall|i: int|
        0 <= i < 14 ==> #[trigger] name[i] == length_name()[i] || (i != 7 && name[i]
            == length_name()[i] - 32)
}

/// The line states a content length: its name, a colon, blanks, digits, and what does not start
/// with a digit.
pub open spec fn states_length(
    line: Seq<u8>,
    name: Seq<u8>,
    pad: Seq<u8>,
    digits: Seq<u8>,
    rest: Seq<u8>,
) -> bool {
    &&& line == name + seq![0x3au8] + (pad + digits + rest)
    &&& is_length_name(name)
    &&& forall|i: int| 0 <= i < pad.len() ==> #[trigger] pad[i] == 0x20 || pad[i] == 0x09
    &&& digits.len() > 0
    &&& forall|i: int| 0 <= i < digits.len() ==> 0x30 <= #[trigger] digits[i] <= 0x39
    &&& rest.len() > 0 ==> !(0x30 <= rest[0] <= 0x39)
}

/// A line with a colon that states no content length: it has another name, or no digits come
/// first in its value but for blanks.
pub open spec fn states_no_length(
    line: Seq<u8>,
    name: Seq<u8>,
    pad: Seq<u8>,
    rest: Seq<u8>,
) -> bool {
    &&& line == name + seq![0x3au8] + (pad + rest)
    &&& forall|i: int| 0 <= i < name.len() ==> #[trigger] name[i] != 0x3a
    &&& forall|i: int| 0 <= i < pad.len() ==> #[trigger] pad[i] == 0x20 || pad[i] == 0x09
    &&& !is_length_name(name) || rest.len() == 0 || !(rest[0] == 0x20 || rest[0] == 0x09 || 0x30
        <= rest[0] <= 0x39)
}

/// A line that states no content length, however it does that.
pub open spec fn is_other(line: Seq<u8>) -> bool {
    exists|name: Seq<u8>, pad: Seq<u8>, rest: Seq<u8>| states_no_length(line, name, pad, rest)
}

/// The bytes of the name.
proof fn lemma_length_name()
    ensures
        text_bytes("content-length") == length_name(),
{
    reveal_strlit("content-length");
    vstd::utf8::is_ascii_chars_encode_utf8("content-length"@);
    assert(text_bytes("content-length") =~= length_name());
}

/// A name is the same but for case exactly where it is the name in small and capital letters.
proof fn lemma_name_matches(name: Seq<u8>)
    ensures
        name.map_values(|b: u8| lower(b)) == text_bytes("content-length").map_values(
            |b: u8| lower(b),
        ) <==> is_length_name(name),
{
    lemma_length_name();
    let ours = name.map_values(|b: u8| lower(b));
    let theirs = length_name().map_values(|b: u8| lower(b));
    assert(forall|i: int| 0 <= i < 14 ==> #[trigger] theirs[i] == length_name()[i]);
    if ours == theirs {
        assert(name.len() == theirs.len());
        assert forall|i: int| 0 <= i < 14 implies #[trigger] name[i] == length_name()[i] || (i != 7
            && name[i] == length_name()[i] - 32) by {
            assert(ours[i] == theirs[i]);
        }
    }
    if is_length_name(name) {
        assert forall|i: int| 0 <= i < 14 implies ours[i] == theirs[i] by {
            assert(name[i] == length_name()[i] || (i != 7 && name[i] == length_name()[i] - 32));
        }
        assert(ours =~= theirs);
    }
}

/// Where a byte stands behind others that are different, it is found.
proof fn lemma_found(bytes: Seq<u8>, byte: u8, at: int, place: int)
    requires
        0 <= at <= place <= bytes.len(),
        forall|i: int| at <= i < place ==> #[trigger] bytes[i] != byte,
        place < bytes.len() ==> bytes[place] == byte,
    ensures
        find(bytes, byte, at) == place,
{
    law_bytes_are_found_at_their_first_place(bytes, byte, at);
    let found = find(bytes, byte, at);
    if found < place {
        assert(bytes[found] != byte);
    } else if place < found {
        assert(bytes[place] != byte);
    }
}

/// Blanks in front are taken away.
proof fn lemma_leading(pad: Seq<u8>, rest: Seq<u8>)
    requires
        forall|i: int| 0 <= i < pad.len() ==> #[trigger] pad[i] == 0x20 || pad[i] == 0x09,
        rest.len() > 0 ==> !is_blank(rest[0]),
    ensures
        without_leading(pad + rest) == rest,
    decreases pad.len(),
{
    let value = pad + rest;
    if pad.len() > 0 {
        assert(value[0] == pad[0]);
        assert(value.drop_first() =~= pad.drop_first() + rest);
        lemma_leading(pad.drop_first(), rest);
    } else {
        assert(value =~= rest);
    }
}

/// What is left without blanks behind it is the front part; only blanks are gone.
proof fn lemma_trailing(value: Seq<u8>)
    ensures
        ({
            let left = without_trailing(value);
            &&& left.len() <= value.len()
            &&& left == value.take(left.len() as int)
            &&& forall|i: int|
                left.len() <= i < value.len() ==> #[trigger] value[i] == 0x20 || value[i] == 0x09
                    || value[i] == 0x0d
        }),
    decreases value.len(),
{
    if value.len() > 0 && (is_blank(value.last()) || value.last() == 0x0d) {
        let less = value.drop_last();
        lemma_trailing(less);
        let left = without_trailing(less);
        assert(left =~= value.take(left.len() as int));
        assert forall|i: int| left.len() <= i < value.len() implies #[trigger] value[i] == 0x20
            || value[i] == 0x09 || value[i] == 0x0d by {
            if i < less.len() {
                assert(less[i] == value[i]);
            }
        }
    } else {
        assert(value =~= value.take(value.len() as int));
    }
}

/// A value that starts with digits, but for blanks, gives the number that they write.
proof fn lemma_value_with_digits(pad: Seq<u8>, digits: Seq<u8>, rest: Seq<u8>)
    requires
        forall|i: int| 0 <= i < pad.len() ==> #[trigger] pad[i] == 0x20 || pad[i] == 0x09,
        digits.len() > 0,
        forall|i: int| 0 <= i < digits.len() ==> 0x30 <= #[trigger] digits[i] <= 0x39,
        rest.len() > 0 ==> !(0x30 <= rest[0] <= 0x39),
    ensures
        length_in(pad + digits + rest) == Some(decimal(digits)),
{
    let value = digits + rest;
    let left = without_trailing(value);
    assert(pad + digits + rest =~= pad + value);
    assert(value[0] == digits[0]);
    lemma_leading(pad, value);
    lemma_trailing(value);
    let last = digits.len() - 1;
    assert(value[last] == digits[last]);
    assert(left.len() >= digits.len());
    law_digits_run_to_the_first_other_byte(left, 0);
    let end = digits_end(left, 0);
    if end < digits.len() {
        assert(left[end] == digits[end]);
    } else if end > digits.len() {
        assert(left[digits.len() as int] == rest[0]);
    }
    assert(left.take(end) =~= digits);
}

/// A value that does not start with digits, but for blanks, gives no number.
proof fn lemma_value_without_digits(pad: Seq<u8>, rest: Seq<u8>)
    requires
        forall|i: int| 0 <= i < pad.len() ==> #[trigger] pad[i] == 0x20 || pad[i] == 0x09,
        rest.len() > 0 ==> !is_blank(rest[0]) && !(0x30 <= rest[0] <= 0x39),
    ensures
        length_in(pad + rest) is None,
{
    let left = without_trailing(rest);
    lemma_leading(pad, rest);
    lemma_trailing(rest);
    law_digits_run_to_the_first_other_byte(left, 0);
    if digits_end(left, 0) > 0 {
        assert(left[0] == rest[0]);
    }
}

/// The first of the lines that start at a position is found: it ends at the line feed, or at the
/// end of the lines.
proof fn lemma_first_line(headers: Seq<u8>, at: int, lines: Seq<Seq<u8>>)
    requires
        0 <= at <= headers.len(),
        headers.skip(at) == joined_lines(lines),
        lines.len() > 0,
        forall|i: int| 0 <= i < lines.len() ==> is_line(#[trigger] lines[i]),
    ensures
        ({
            let end = find(headers, 0x0a, at);
            &&& headers.subrange(at, end) == lines[0]
            &&& lines.len() == 1 ==> end == headers.len()
            &&& lines.len() > 1 ==> at <= end < headers.len() && headers.skip(end + 1)
                == joined_lines(lines.drop_first())
        }),
{
    let line = lines[0];
    let text = joined_lines(lines);
    assert(is_line(line));
    assert forall|i: int| at <= i < headers.len() implies #[trigger] headers[i] == text[i - at] by {
        assert(headers.skip(at)[i - at] == headers[i]);
    }
    assert(text.len() == headers.len() - at);
    if lines.len() == 1 {
        assert forall|i: int| at <= i < headers.len() implies #[trigger] headers[i] != 0x0a by {
            assert(line[i - at] != 0x0a);
        }
        lemma_found(headers, 0x0a, at, headers.len() as int);
        assert(headers.subrange(at, headers.len() as int) =~= line);
    } else {
        let rest = joined_lines(lines.drop_first());
        let end = at + line.len();
        assert(text =~= line + seq![0x0au8] + rest);
        assert(headers[end] == text[line.len() as int]);
        assert forall|i: int| at <= i < end implies #[trigger] headers[i] != 0x0a by {
            assert(line[i - at] != 0x0a);
        }
        lemma_found(headers, 0x0a, at, end);
        assert(headers.subrange(at, end) =~= line);
        assert(headers.skip(end + 1) =~= rest);
    }
}

/// A line is split at its first colon.
proof fn lemma_colon(name: Seq<u8>, value: Seq<u8>)
    requires
        forall|i: int| 0 <= i < name.len() ==> #[trigger] name[i] != 0x3a,
    ensures
        ({
            let line = name + seq![0x3au8] + value;
            let colon = find(line, 0x3a, 0);
            &&& colon == name.len()
            &&& line.take(colon) == name
            &&& line.skip(colon + 1) == value
        }),
{
    let line = name + seq![0x3au8] + value;
    assert forall|i: int| 0 <= i < name.len() implies #[trigger] line[i] != 0x3a by {
        assert(line[i] == name[i]);
    }
    lemma_found(line, 0x3a, 0, name.len() as int);
    assert(line.take(name.len() as int) =~= name);
    assert(line.skip(name.len() as int + 1) =~= value);
}

/// Without the carriage return at its end, a line is its front with what is left of its back.
proof fn lemma_back_without_cr(front: Seq<u8>, back: Seq<u8>)
    requires
        front.len() > 0 && front[front.len() - 1] != 0x0d,
    ensures
        without_cr(front + back) == front + without_cr(back),
        without_cr(back).len() > 0 ==> without_cr(back)[0] == back[0],
{
    let line = front + back;
    if back.len() > 0 {
        assert(line.last() == back.last());
        assert(line.drop_last() =~= front + back.drop_last());
    } else {
        assert(line =~= front);
    }
}

/// A line that states no length is passed over.
proof fn lemma_other_line(headers: Seq<u8>, at: int, lines: Seq<Seq<u8>>)
    requires
        0 <= at <= headers.len(),
        headers.skip(at) == joined_lines(lines),
        lines.len() > 0,
        forall|i: int| 0 <= i < lines.len() ==> is_line(#[trigger] lines[i]),
        is_other(lines[0]),
    ensures
        lines.len() == 1 ==> content_length(headers, at) is None,
        lines.len() > 1 ==> content_length(headers, at) == content_length(
            headers,
            find(headers, 0x0a, at) + 1,
        ),
{
    let (name, pad, rest) = choose|name: Seq<u8>, pad: Seq<u8>, rest: Seq<u8>|
        states_no_length(lines[0], name, pad, rest);
    let front = name + seq![0x3au8] + pad;
    let left = without_cr(rest);
    lemma_first_line(headers, at, lines);
    assert(lines[0] =~= front + rest);
    assert(front[front.len() - 1] != 0x0d);
    lemma_back_without_cr(front, rest);
    assert(front + left =~= name + seq![0x3au8] + (pad + left));
    lemma_colon(name, pad + left);
    lemma_name_matches(name);
    if is_length_name(name) {
        lemma_value_without_digits(pad, left);
    }
}

/// Behind lines that state no length, the first that states one is found.
proof fn lemma_length_is_found(
    headers: Seq<u8>,
    at: int,
    before: Seq<Seq<u8>>,
    line: Seq<u8>,
    behind: Seq<Seq<u8>>,
    name: Seq<u8>,
    pad: Seq<u8>,
    digits: Seq<u8>,
    rest: Seq<u8>,
)
    requires
        0 <= at <= headers.len(),
        headers.skip(at) == joined_lines(before.push(line) + behind),
        forall|i: int| 0 <= i < before.len() ==> is_line(#[trigger] before[i]),
        forall|i: int| 0 <= i < before.len() ==> is_other(#[trigger] before[i]),
        is_line(line),
        forall|i: int| 0 <= i < behind.len() ==> is_line(#[trigger] behind[i]),
        states_length(line, name, pad, digits, rest),
    ensures
        content_length(headers, at) == Some(decimal(digits)),
    decreases before.len(),
{
    let lines = before.push(line) + behind;
    assert forall|i: int| 0 <= i < lines.len() implies is_line(#[trigger] lines[i]) by {
        if i < before.len() {
            assert(lines[i] == before[i]);
        } else if i > before.len() {
            assert(lines[i] == behind[i - before.len() - 1]);
        }
    }
    lemma_first_line(headers, at, lines);
    if before.len() == 0 {
        assert forall|i: int| 0 <= i < name.len() implies #[trigger] name[i] != 0x3a by {
            assert(name[i] == length_name()[i] || (i != 7 && name[i] == length_name()[i] - 32));
        }
        let front = name + seq![0x3au8] + pad + digits;
        let left = without_cr(rest);
        assert(line =~= front + rest);
        assert(front[front.len() - 1] == digits[digits.len() - 1]);
        lemma_back_without_cr(front, rest);
        assert(front + left =~= name + seq![0x3au8] + (pad + digits + left));
        lemma_colon(name, pad + digits + left);
        lemma_name_matches(name);
        lemma_value_with_digits(pad, digits, left);
    } else {
        let end = find(headers, 0x0a, at);
        let less = before.drop_first();
        assert(lines[0] == before[0]);
        lemma_other_line(headers, at, lines);
        assert(lines.drop_first() =~= less.push(line) + behind);
        assert forall|i: int| 0 <= i < less.len() implies is_line(#[trigger] less[i]) && is_other(
            less[i],
        ) by {
            assert(less[i] == before[i + 1]);
        }
        lemma_length_is_found(headers, end + 1, less, line, behind, name, pad, digits, rest);
    }
}

/// The content length is the one of the first line that states one, in whatever line that is: the
/// number that its digits write. Lines before it may have any other names and values, or the same
/// name without digits; what comes behind it does not matter.
pub proof fn law_content_length_is_found_in_any_line(
    before: Seq<Seq<u8>>,
    line: Seq<u8>,
    behind: Seq<Seq<u8>>,
    name: Seq<u8>,
    pad: Seq<u8>,
    digits: Seq<u8>,
    rest: Seq<u8>,
)
    requires
        forall|i: int| 0 <= i < before.len() ==> is_line(#[trigger] before[i]),
        forall|i: int| 0 <= i < before.len() ==> is_other(#[trigger] before[i]),
        is_line(line),
        forall|i: int| 0 <= i < behind.len() ==> is_line(#[trigger] behind[i]),
        states_length(line, name, pad, digits, rest),
    ensures
        content_length(joined_lines(before.push(line) + behind), 0) == Some(decimal(digits)),
{
    let headers = joined_lines(before.push(line) + behind);
    assert(headers.skip(0) =~= headers);
    lemma_length_is_found(headers, 0, before, line, behind, name, pad, digits, rest);
}

/// Lines that state no length have none, up to their end or to a line without a colon.
proof fn lemma_no_length(headers: Seq<u8>, at: int, lines: Seq<Seq<u8>>, count: int)
    requires
        0 <= at <= headers.len(),
        headers.skip(at) == joined_lines(lines),
        0 <= count <= lines.len(),
        lines.len() > 0,
        forall|i: int| 0 <= i < lines.len() ==> is_line(#[trigger] lines[i]),
        forall|i: int| 0 <= i < count ==> is_other(#[trigger] lines[i]),
        count < lines.len() ==> forall|i: int|
            0 <= i < lines[count].len() ==> #[trigger] lines[count][i] != 0x3a,
    ensures
        content_length(headers, at) is None,
    decreases lines.len(),
{
    lemma_first_line(headers, at, lines);
    if count == 0 {
        let line = without_cr(lines[0]);
        assert forall|i: int| 0 <= i < line.len() implies #[trigger] line[i] != 0x3a by {
            assert(line[i] == lines[0][i]);
        }
        lemma_found(line, 0x3a, 0, line.len() as int);
    } else {
        lemma_other_line(headers, at, lines);
        if lines.len() > 1 {
            let rest = lines.drop_first();
            assert forall|i: int| 0 <= i < rest.len() implies is_line(#[trigger] rest[i]) by {
                assert(rest[i] == lines[i + 1]);
            }
            assert forall|i: int| 0 <= i < count - 1 implies is_other(#[trigger] rest[i]) by {
                assert(rest[i] == lines[i + 1]);
            }
            if count < lines.len() {
                assert(rest[count - 1] == lines[count]);
            }
            lemma_no_length(headers, find(headers, 0x0a, at) + 1, rest, count - 1);
        }
    }
}

/// There is no content length where no line states one, nor where a line without a colon comes
/// before the first that does.
pub proof fn law_no_content_length_without_a_statement(lines: Seq<Seq<u8>>, count: int)
    requires
        0 <= count <= lines.len(),
        forall|i: int| 0 <= i < lines.len() ==> is_line(#[trigger] lines[i]),
        forall|i: int| 0 <= i < count ==> is_other(#[trigger] lines[i]),
        count < lines.len() ==> forall|i: int|
            0 <= i < lines[count].len() ==> #[trigger] lines[count][i] != 0x3a,
    ensures
        content_length(joined_lines(lines), 0) is None,
{
    let headers = joined_lines(lines);
    if lines.len() == 0 {
        assert(headers =~= seq![]);
        assert(without_cr(headers.subrange(0, 0)) =~= seq![]);
    } else {
        assert(headers.skip(0) =~= headers);
        lemma_no_length(headers, 0, lines, count);
    }
}

/// A header: a first line, further lines and a blank line.
pub open spec fn head(first: Seq<u8>, lines: Seq<Seq<u8>>) -> Seq<u8> {
    first + seq![0x0au8] + joined_lines(lines) + seq![0x0du8, 0x0a, 0x0d, 0x0a]
}

/// A line that holds something, with or without a carriage return.
pub open spec fn is_filled_line(line: Seq<u8>) -> bool {
    is_line(line) && line.len() > 0 && line != seq![0x0du8]
}

/// A header of lines that each hold something, with any first line.
pub open spec fn is_head(first: Seq<u8>, lines: Seq<Seq<u8>>) -> bool {
    &&& is_line(first)
    &&& lines.len() > 0
    &&& forall|i: int| 0 <= i < lines.len() ==> is_filled_line(#[trigger] lines[i])
}

/// The words of a line: the line without its carriage return, if it has one.
pub open spec fn are_words_of(words: Seq<u8>, line: Seq<u8>) -> bool {
    line == words + seq![0x0du8] || (line == words && (words.len() == 0 || words[words.len() - 1]
        != 0x0d))
}

/// Lines that stand somewhere stand there one behind the other.
proof fn lemma_lines_stand(input: Seq<u8>, at: int, lines: Seq<Seq<u8>>)
    requires
        0 <= at,
        at + joined_lines(lines).len() <= input.len(),
        input.subrange(at, (at + joined_lines(lines).len()) as int) == joined_lines(lines),
        lines.len() > 1,
    ensures
        ({
            let end = at + lines[0].len();
            let rest = joined_lines(lines.drop_first());
            &&& joined_lines(lines).len() == lines[0].len() + 1 + rest.len()
            &&& input.subrange(at, end) == lines[0]
            &&& input[end] == 0x0a
            &&& input.subrange(end + 1, (end + 1 + rest.len()) as int) == rest
        }),
{
    let line = lines[0];
    let rest = joined_lines(lines.drop_first());
    let text = joined_lines(lines);
    let found = input.subrange(at, (at + text.len()) as int);
    let end = at + line.len();
    assert(text == line + seq![0x0au8] + rest);
    assert(found[line.len() as int] == 0x0a);
    assert(input.subrange(at, end) =~= found.subrange(0, line.len() as int));
    assert(text.subrange(0, line.len() as int) =~= line);
    assert(input.subrange(end + 1, (end + 1 + rest.len()) as int) =~= found.subrange(
        line.len() as int + 1,
        text.len() as int,
    ));
    assert(text.subrange(line.len() as int + 1, text.len() as int) =~= rest);
}

/// No line feed stands in a line.
proof fn lemma_no_feed(input: Seq<u8>, at: int, line: Seq<u8>, i: int)
    requires
        0 <= at <= i < at + line.len() <= input.len(),
        input.subrange(at, (at + line.len()) as int) == line,
        forall|k: int| 0 <= k < line.len() ==> #[trigger] line[k] != 0x0a,
    ensures
        input[i] != 0x0a,
{
    assert(input.subrange(at, (at + line.len()) as int)[i - at] == input[i]);
    assert(line[i - at] != 0x0a);
}

/// Lines do not start with a carriage return and a line feed.
proof fn lemma_no_blank_start(input: Seq<u8>, at: int, lines: Seq<Seq<u8>>)
    requires
        0 <= at,
        at + joined_lines(lines).len() + 4 <= input.len(),
        input.subrange(at, (at + joined_lines(lines).len()) as int) == joined_lines(lines),
        input[(at + joined_lines(lines).len()) as int] == 0x0d,
        lines.len() > 0,
        is_filled_line(lines[0]),
    ensures
        !(input[at] == 0x0d && input[at + 1] == 0x0a),
{
    let line = lines[0];
    if lines.len() > 1 {
        lemma_lines_stand(input, at, lines);
    }
    if line.len() > 1 {
        lemma_no_feed(input, at, line, at + 1);
    } else {
        assert(input.subrange(at, at + 1)[0] == input[at]);
        assert(input.subrange(at, at + 1) == line);
        if input[at] == 0x0d {
            assert(line =~= seq![0x0du8]);
        }
    }
}

/// No header ends within its lines: no line is blank.
proof fn lemma_no_end_in_lines(input: Seq<u8>, at: int, lines: Seq<Seq<u8>>, i: int)
    requires
        0 <= at,
        at + joined_lines(lines).len() + 4 <= input.len(),
        input.subrange(at, (at + joined_lines(lines).len()) as int) == joined_lines(lines),
        input[(at + joined_lines(lines).len()) as int] == 0x0d,
        lines.len() > 0,
        forall|j: int| 0 <= j < lines.len() ==> is_filled_line(#[trigger] lines[j]),
        at <= i < at + joined_lines(lines).len(),
    ensures
        !is_header_end(input, i),
    decreases lines.len(),
{
    let line = lines[0];
    let end = at + line.len();
    assert(is_filled_line(line));
    if lines.len() > 1 {
        lemma_lines_stand(input, at, lines);
    }
    if i + 1 < end {
        lemma_no_feed(input, at, line, i + 1);
    } else if lines.len() > 1 {
        let rest = lines.drop_first();
        assert forall|j: int| 0 <= j < rest.len() implies is_filled_line(#[trigger] rest[j]) by {
            assert(rest[j] == lines[j + 1]);
        }
        assert(is_filled_line(rest[0]));
        if i < end {
            lemma_no_blank_start(input, end + 1, rest);
        } else if i > end {
            lemma_no_end_in_lines(input, end + 1, rest, i);
        }
    }
}

/// The header's end is found where it is, if it is nowhere before.
proof fn lemma_end_is_found(input: Seq<u8>, at: int, end: int)
    requires
        0 <= at <= end,
        is_header_end(input, end),
        forall|i: int| at <= i < end ==> !#[trigger] is_header_end(input, i),
    ensures
        header_end(input, at) == Some(end),
    decreases end - at,
{
    if at < end {
        assert(!is_header_end(input, at));
        lemma_end_is_found(input, at + 1, end);
    }
}

/// A header is taken apart into its lines.
proof fn lemma_head(first: Seq<u8>, words: Seq<u8>, lines: Seq<Seq<u8>>, behind: Seq<u8>)
    requires
        is_head(first, lines),
        are_words_of(words, first),
    ensures
        ({
            let input = head(first, lines) + behind;
            let end = head(first, lines).len() - 4;
            &&& header_end(input, 0) == Some(end)
            &&& find(input.take(end), 0x0a, 0) == first.len()
            &&& input.subrange(first.len() as int + 1, end) == joined_lines(lines)
            &&& without_cr(input.take(first.len() as int)) == words
            &&& first.len() < end
        }),
{
    let text = joined_lines(lines);
    let input = head(first, lines) + behind;
    let start = first.len() as int + 1;
    let end = start + text.len();
    assert(input =~= first + seq![0x0au8] + text + (seq![0x0du8, 0x0a, 0x0d, 0x0a] + behind));
    assert(input.subrange(start, end) =~= text);
    assert(is_filled_line(lines[0]));
    assert(text.len() > 0);
    assert(input[end] == 0x0d && input[end + 1] == 0x0a && input[end + 2] == 0x0d && input[end + 3]
        == 0x0a);
    assert(input[start - 1] == 0x0a);
    assert forall|k: int| 0 <= k < start - 1 implies #[trigger] input[k] != 0x0a by {
        assert(first[k] != 0x0a);
    }
    assert forall|i: int| 0 <= i < end implies !#[trigger] is_header_end(input, i) by {
        if i + 1 < start - 1 {
            assert(input[i + 1] != 0x0a);
        } else if i + 1 == start - 1 {
            lemma_no_blank_start(input, start, lines);
        } else if i >= start {
            lemma_no_end_in_lines(input, start, lines, i);
        }
    }
    lemma_end_is_found(input, 0, end);
    assert forall|k: int| 0 <= k < start - 1 implies #[trigger] input.take(end)[k] != 0x0a by {
        assert(input[k] != 0x0a);
    }
    lemma_found(input.take(end), 0x0a, 0, start - 1);
    assert(input.take(start - 1) =~= first);
    law_lines_lose_one_carriage_return(words);
}

/// A first line, any lines that state no content length, one that states one, any further lines, a
/// blank line and as many bytes as stated make one request with these bytes as its body, whatever
/// follows; with fewer bytes there is none yet.
pub proof fn law_requests_end_with_their_stated_body(
    first: Seq<u8>,
    words: Seq<u8>,
    before: Seq<Seq<u8>>,
    line: Seq<u8>,
    behind: Seq<Seq<u8>>,
    name: Seq<u8>,
    pad: Seq<u8>,
    digits: Seq<u8>,
    rest: Seq<u8>,
    body: Seq<u8>,
    more: Seq<u8>,
)
    requires
        is_head(first, before.push(line) + behind),
        are_words_of(words, first),
        forall|i: int| 0 <= i < before.len() ==> is_other(#[trigger] before[i]),
        states_length(line, name, pad, digits, rest),
    ensures
        ({
            let header = head(first, before.push(line) + behind);
            &&& body.len() == decimal(digits) ==> request(header + body + more) == Some(
                RequestView {
                    route: route_of(words),
                    body_start: header.len() as int,
                    end: (header + body).len() as int,
                },
            )
            &&& body.len() == decimal(digits) ==> (header + body + more).subrange(
                header.len() as int,
                (header + body).len() as int,
            ) == body && (header + body + more).skip((header + body).len() as int) == more
            &&& body.len() < decimal(digits) ==> request(header + body) is None
        }),
{
    let lines = before.push(line) + behind;
    let header = head(first, lines);
    assert(is_filled_line(lines[before.len() as int]));
    assert forall|i: int| 0 <= i < before.len() implies is_line(#[trigger] before[i]) by {
        assert(is_filled_line(lines[i]));
    }
    assert forall|i: int| 0 <= i < behind.len() implies is_line(#[trigger] behind[i]) by {
        assert(is_filled_line(lines[before.len() + 1 + i]));
    }
    law_content_length_is_found_in_any_line(before, line, behind, name, pad, digits, rest);
    let all = header + body + more;
    assert(all =~= header + (body + more));
    lemma_head(first, words, lines, body + more);
    lemma_head(first, words, lines, body);
    assert(all.subrange(header.len() as int, (header + body).len() as int) =~= body);
    assert(all.skip((header + body).len() as int) =~= more);
}

/// The only request of a stream that holds one header and as many bytes as it states.
pub proof fn law_stated_bodies_make_one_request(
    first: Seq<u8>,
    words: Seq<u8>,
    before: Seq<Seq<u8>>,
    line: Seq<u8>,
    behind: Seq<Seq<u8>>,
    name: Seq<u8>,
    pad: Seq<u8>,
    digits: Seq<u8>,
    rest: Seq<u8>,
    body: Seq<u8>,
)
    requires
        is_head(first, before.push(line) + behind),
        are_words_of(words, first),
        forall|i: int| 0 <= i < before.len() ==> is_other(#[trigger] before[i]),
        states_length(line, name, pad, digits, rest),
        body.len() == decimal(digits),
    ensures
        ({
            let stream = head(first, before.push(line) + behind) + body;
            &&& requests(stream) == seq![Asked { route: route_of(words), body }]
            &&& remainder(stream) == Seq::<u8>::empty()
        }),
{
    let nothing = Seq::<u8>::empty();
    let stream = head(first, before.push(line) + behind) + body;
    law_requests_end_with_their_stated_body(
        first,
        words,
        before,
        line,
        behind,
        name,
        pad,
        digits,
        rest,
        body,
        nothing,
    );
    assert(stream + nothing =~= stream);
    assert(header_end(nothing, 0) is None);
    assert(declared(nothing) is None);
    assert(requests(nothing) =~= seq![]);
    assert(remainder(nothing) == nothing);
    assert(stream.skip(stream.len() as int) =~= nothing);
    assert(stream.subrange(stream.len() - body.len(), stream.len() as int) =~= body);
    assert(requests(stream) =~= seq![Asked { route: route_of(words), body }]);
}

/// A header in which no length is stated, or a line without a colon comes before it is, makes a
/// request without a body, which ends with the header.
pub proof fn law_requests_without_a_stated_length_have_no_body(
    first: Seq<u8>,
    words: Seq<u8>,
    lines: Seq<Seq<u8>>,
    count: int,
    more: Seq<u8>,
)
    requires
        is_head(first, lines),
        are_words_of(words, first),
        0 <= count <= lines.len(),
        forall|i: int| 0 <= i < count ==> is_other(#[trigger] lines[i]),
        count < lines.len() ==> forall|i: int|
            0 <= i < lines[count].len() ==> #[trigger] lines[count][i] != 0x3a,
    ensures
        request(head(first, lines) + more) == Some(
            RequestView {
                route: route_of(words),
                body_start: head(first, lines).len() as int,
                end: head(first, lines).len() as int,
            },
        ),
{
    assert forall|i: int| 0 <= i < lines.len() implies is_line(#[trigger] lines[i]) by {
        assert(is_filled_line(lines[i]));
    }
    law_no_content_length_without_a_statement(lines, count);
    lemma_head(first, words, lines, more);
}

/// Before the blank line there is no request, nor where a header is a first line alone.
pub proof fn law_no_request_without_a_whole_header(input: Seq<u8>, first: Seq<u8>, behind: Seq<u8>)
    requires
        forall|i: int| 0 <= i < first.len() ==> #[trigger] first[i] != 0x0a,
    ensures
        (forall|i: int|
            0 <= i && i + 4 <= input.len() ==> !(#[trigger] input[i] == 0x0d && input[i + 1] == 0x0a
                && input[i + 2] == 0x0d && input[i + 3] == 0x0a)) ==> request(input) is None,
        request(first + seq![0x0du8, 0x0a, 0x0d, 0x0a] + behind) is None,
{
    if forall|i: int|
        0 <= i && i + 4 <= input.len() ==> !(#[trigger] input[i] == 0x0d && input[i + 1] == 0x0a
            && input[i + 2] == 0x0d && input[i + 3] == 0x0a) {
        lemma_no_end_at_all(input, 0);
    }
    let alone = first + seq![0x0du8, 0x0a, 0x0d, 0x0a] + behind;
    let end = first.len() as int;
    assert forall|k: int| 0 <= k <= end implies #[trigger] alone[k] != 0x0a by {
        if k < end {
            assert(first[k] != 0x0a);
        }
    }
    assert forall|i: int| 0 <= i < end implies !#[trigger] is_header_end(alone, i) by {
        assert(alone[i + 1] != 0x0a);
    }
    lemma_end_is_found(alone, 0, end);
    assert forall|k: int| 0 <= k < end implies #[trigger] alone.take(end)[k] != 0x0a by {
        assert(alone[k] != 0x0a);
    }
    lemma_found(alone.take(end), 0x0a, 0, end);
}

/// Where no header ends, none is found.
proof fn lemma_no_end_at_all(input: Seq<u8>, at: int)
    requires
        0 <= at,
        forall|i: int|
            0 <= i && i + 4 <= input.len() ==> !(#[trigger] input[i] == 0x0d && input[i + 1] == 0x0a
                && input[i + 2] == 0x0d && input[i + 3] == 0x0a),
    ensures
        header_end(input, at) is None,
    decreases input.len() - at,
{
    if at + 4 <= input.len() {
        assert(input[at] != 0x0d || input[at + 1] != 0x0a || input[at + 2] != 0x0d || input[at + 3]
            != 0x0a);
        lemma_no_end_at_all(input, at + 1);
    }
}

/// A stated length is too large for the machine exactly where the end of the request is beyond the
/// largest position.
pub proof fn law_ends_fit_up_to_the_largest_position(
    first: Seq<u8>,
    words: Seq<u8>,
    before: Seq<Seq<u8>>,
    line: Seq<u8>,
    behind: Seq<Seq<u8>>,
    name: Seq<u8>,
    pad: Seq<u8>,
    digits: Seq<u8>,
    rest: Seq<u8>,
    body: Seq<u8>,
)
    requires
        is_head(first, before.push(line) + behind),
        are_words_of(words, first),
        forall|i: int| 0 <= i < before.len() ==> is_other(#[trigger] before[i]),
        states_length(line, name, pad, digits, rest),
    ensures
        end_fits(head(first, before.push(line) + behind) + body) <==> head(
            first,
            before.push(line) + behind,
        ).len() + decimal(digits) <= usize::MAX,
{
    let lines = before.push(line) + behind;
    assert(is_filled_line(lines[before.len() as int]));
    assert forall|i: int| 0 <= i < before.len() implies is_line(#[trigger] before[i]) by {
        assert(is_filled_line(lines[i]));
    }
    assert forall|i: int| 0 <= i < behind.len() implies is_line(#[trigger] behind[i]) by {
        assert(is_filled_line(lines[before.len() + 1 + i]));
    }
    law_content_length_is_found_in_any_line(before, line, behind, name, pad, digits, rest);
    lemma_head(first, words, lines, body);
}

} // verus!
