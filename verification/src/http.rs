//! Requests in a stream of bytes, and what they are answered.

use crate::config::IvfConfig;
use crate::index::IvfIndex;
use crate::search::Query;
use crate::text::{
    decimal, digits_end, eq_ascii_case, find, find_byte, lemma_decimal_grows, lemma_digits_end,
    lower, same_bytes, trim_cr, trim_space, without_cr, without_leading, without_trailing,
};
use vstd::prelude::*;

verus! {

/// The bytes of a text.
pub open spec fn text_bytes(text: &str) -> Seq<u8> {
    vstd::utf8::encode_utf8(text@)
}

/// Whether a blank line's end stands at the position: `\r\n\r\n`.
pub open spec fn is_header_end(input: Seq<u8>, at: int) -> bool {
    &&& 0 <= at && at + 4 <= input.len()
    &&& input[at] == 0x0d && input[at + 1] == 0x0a && input[at + 2] == 0x0d && input[at + 3] == 0x0a
}

/// The first position from `at` on where the header ends.
pub open spec fn header_end(input: Seq<u8>, at: int) -> Option<int>
    decreases input.len() - at,
{
    if at + 4 > input.len() {
        None
    } else if is_header_end(input, at) {
        Some(at)
    } else {
        header_end(input, at + 1)
    }
}

/// The length that a header's value gives: the number that its leading digits write.
pub open spec fn length_in(value: Seq<u8>) -> Option<int> {
    let trimmed = without_trailing(without_leading(value));
    let end = digits_end(trimmed, 0);
    if end > 0 {
        Some(decimal(trimmed.take(end)))
    } else {
        None
    }
}

/// The content length that the lines from `at` on declare. A line without a colon ends the search.
pub open spec fn content_length(headers: Seq<u8>, at: int) -> Option<int>
    decreases headers.len() - at,
{
    let end = find(headers, 0x0a, at);
    let line = without_cr(headers.subrange(at, end));
    let colon = find(line, 0x3a, 0);
    let named = line.take(colon).map_values(|b: u8| lower(b)) == text_bytes(
        "content-length",
    ).map_values(|b: u8| lower(b));
    let length = length_in(line.skip(colon + 1));
    if colon >= line.len() {
        None
    } else if named && length is Some {
        length
    } else if at <= end < headers.len() {
        content_length(headers, end + 1)
    } else {
        None
    }
}

/// What a request asks for.
#[derive(Clone, Copy, Debug, PartialEq, Eq, Structural)]
pub enum Route {
    /// Whether the server is up.
    Ready,
    /// The score of the transaction in the body.
    FraudScore,
    /// Nothing: the first line is empty.
    BadRequest,
    /// Something else.
    NotFound,
}

/// Whether the line starts with the text.
pub open spec fn starts_with(line: Seq<u8>, text: &str) -> bool {
    text_bytes(text).is_prefix_of(line)
}

/// What a request with this first line asks for.
pub open spec fn route_of(first_line: Seq<u8>) -> Route {
    if starts_with(first_line, "GET /ready ") {
        Route::Ready
    } else if starts_with(first_line, "POST /fraud-score ") {
        Route::FraudScore
    } else if first_line.len() == 0 {
        Route::BadRequest
    } else {
        Route::NotFound
    }
}

/// A request at the start of a stream: what it asks for, where its body starts and where it ends.
#[derive(Clone, Copy, Debug, PartialEq, Eq, Structural)]
pub struct Request {
    pub route: Route,
    pub body_start: usize,
    pub end: usize,
}

/// A request at the start of a stream, however long that is.
pub ghost struct RequestView {
    pub route: Route,
    pub body_start: int,
    pub end: int,
}

impl View for Request {
    type V = RequestView;

    open spec fn view(&self) -> RequestView {
        RequestView { route: self.route, body_start: self.body_start as int, end: self.end as int }
    }
}

/// Where the first request of the stream ends, going by its header, and where its header and its
/// first line do. There is none before the header has ended, nor where it is a single line.
pub open spec fn declared(input: Seq<u8>) -> Option<(int, int, int)> {
    match header_end(input, 0) {
        Some(header) => {
            let first = find(input.take(header), 0x0a, 0);
            if first < header {
                let length = content_length(input.subrange(first + 1, header), 0);
                Some(
                    (
                        match length {
                            Some(length) => header + 4 + length,
                            None => header + 4,
                        },
                        header,
                        first,
                    ),
                )
            } else {
                None
            }
        },
        None => None,
    }
}

/// The first request of the stream, once all of it is there.
pub open spec fn request(input: Seq<u8>) -> Option<RequestView> {
    match declared(input) {
        Some((end, header, first)) => if end <= input.len() {
            Some(
                RequestView {
                    route: route_of(without_cr(input.take(first))),
                    body_start: header + 4,
                    end,
                },
            )
        } else {
            None
        },
        None => None,
    }
}

/// The end of the first request, going by its header, fits `usize`.
pub open spec fn end_fits(input: Seq<u8>) -> bool {
    declared(input) matches Some((end, _, _)) ==> end <= usize::MAX
}

/// The answer to a count of frauds; counts above five are answered as five.
pub open spec fn fraud_response(frauds: int) -> Seq<u8> {
    if frauds <= 0 {
        text_bytes(
            "HTTP/1.1 200 OK\r\nContent-Length: 35\r\n\r\n{\"approved\":true,\"fraud_score\":0.0}",
        )
    } else if frauds == 1 {
        text_bytes(
            "HTTP/1.1 200 OK\r\nContent-Length: 35\r\n\r\n{\"approved\":true,\"fraud_score\":0.2}",
        )
    } else if frauds == 2 {
        text_bytes(
            "HTTP/1.1 200 OK\r\nContent-Length: 35\r\n\r\n{\"approved\":true,\"fraud_score\":0.4}",
        )
    } else if frauds == 3 {
        text_bytes(
            "HTTP/1.1 200 OK\r\nContent-Length: 36\r\n\r\n{\"approved\":false,\"fraud_score\":0.6}",
        )
    } else if frauds == 4 {
        text_bytes(
            "HTTP/1.1 200 OK\r\nContent-Length: 36\r\n\r\n{\"approved\":false,\"fraud_score\":0.8}",
        )
    } else {
        text_bytes(
            "HTTP/1.1 200 OK\r\nContent-Length: 36\r\n\r\n{\"approved\":false,\"fraud_score\":1.0}",
        )
    }
}

/// The answer to a request. A transaction that could not be read counts as without frauds.
pub open spec fn response(route: Route, frauds: Option<nat>) -> Seq<u8> {
    match route {
        Route::Ready => text_bytes("HTTP/1.1 204 No Content\r\nContent-Length: 0\r\n\r\n"),
        Route::FraudScore => fraud_response(
            match frauds {
                Some(frauds) => frauds as int,
                None => 0,
            },
        ),
        Route::BadRequest => text_bytes("HTTP/1.1 400 Bad Request\r\nContent-Length: 0\r\n\r\n"),
        Route::NotFound => text_bytes("HTTP/1.1 404 Not Found\r\nContent-Length: 0\r\n\r\n"),
    }
}

/// Where the header ends.
pub fn find_header_end(input: &[u8]) -> (end: Option<usize>)
    ensures
        match end {
            Some(end) => header_end(input@, 0) == Some(end as int) && end + 4 <= input.len(),
            None => header_end(input@, 0) is None,
        },
{
    let mut at: usize = 0;
    while input.len() - at >= 4
        invariant
            at <= input.len(),
            header_end(input@, 0) == header_end(input@, at as int),
        decreases input.len() - at,
    {
        if input[at] == 0x0d && input[at + 1] == 0x0a && input[at + 2] == 0x0d && input[at + 3]
            == 0x0a {
            return Some(at);
        }
        at = at + 1;
    }
    None
}

/// A length that a header gives.
enum Length {
    /// There is none.
    Missing,
    /// It fits `usize`.
    Fits(usize),
    /// It is larger than `usize` can tell.
    TooLarge,
}

/// The length is the one given.
spec fn is_length(length: Length, given: Option<int>) -> bool {
    match length {
        Length::Missing => given is None,
        Length::Fits(length) => given == Some(length as int),
        Length::TooLarge => given matches Some(given) && given > usize::MAX,
    }
}

/// The length that a header's value gives.
fn read_length(value: &[u8]) -> (length: Length)
    ensures
        is_length(length, length_in(value@)),
{
    let trimmed = trim_space(value);
    let ghost run = digits_end(trimmed@, 0);
    proof {
        lemma_digits_end(trimmed@, 0);
    }
    let mut length: usize = 0;
    let mut at: usize = 0;
    while at < trimmed.len() && trimmed[at] >= 0x30 && trimmed[at] <= 0x39
        invariant
            at <= trimmed.len(),
            trimmed@ == without_trailing(without_leading(value@)),
            run == digits_end(trimmed@, 0),
            run == digits_end(trimmed@, at as int),
            at <= run <= trimmed.len(),
            forall|i: int| 0 <= i < run ==> crate::text::is_digit(#[trigger] trimmed@[i]),
            length == decimal(trimmed@.take(at as int)),
        decreases trimmed.len() - at,
    {
        let digit: usize = (trimmed[at] - 0x30) as usize;
        proof {
            assert(trimmed@.take(at + 1).drop_last() =~= trimmed@.take(at as int));
            lemma_digits_end(trimmed@, at + 1);
            lemma_decimal_grows(trimmed@, 0, at + 1, run);
            assert(trimmed@.take(at + 1) =~= trimmed@.subrange(0, at + 1));
            assert(trimmed@.take(run) =~= trimmed@.subrange(0, run));
        }
        if length > usize::MAX / 10 || digit > usize::MAX - length * 10 {
            return Length::TooLarge;
        }
        length = length * 10 + digit;
        at = at + 1;
    }
    if at > 0 {
        Length::Fits(length)
    } else {
        Length::Missing
    }
}

/// The content length that the lines declare.
fn find_length(headers: &[u8]) -> (length: Length)
    ensures
        is_length(length, content_length(headers@, 0)),
{
    let mut at: usize = 0;
    loop
        invariant
            at <= headers.len(),
            content_length(headers@, 0) == content_length(headers@, at as int),
        decreases headers.len() - at,
    {
        let end: usize = find_byte(headers, 0x0a, at);
        let line = trim_cr(&headers[at..end]);
        let colon: usize = find_byte(line, 0x3a, 0);
        if colon >= line.len() {
            return Length::Missing;
        }
        let ghost name = line@.take(colon as int);
        assert(line@.subrange(0, colon as int) =~= name);
        if eq_ascii_case(&line[0..colon], "content-length".as_bytes()) {
            let value = &line[colon + 1..line.len()];
            assert(value@ =~= line@.skip(colon + 1));
            let length = read_length(value);
            match length {
                Length::Missing => {},
                _ => return length,
            }
        }
        if end >= headers.len() {
            return Length::Missing;
        }
        at = end + 1;
    }
}

/// The content length that the lines declare.
pub fn parse_content_length(headers: &[u8]) -> (length: Option<usize>)
    requires
        content_length(headers@, 0) matches Some(length) ==> length <= usize::MAX,
    ensures
        match length {
            Some(length) => content_length(headers@, 0) == Some(length as int),
            None => content_length(headers@, 0) is None,
        },
{
    match find_length(headers) {
        Length::Fits(length) => Some(length),
        _ => None,
    }
}

/// Whether the line starts with the text.
fn has_prefix(line: &[u8], text: &str) -> (answer: bool)
    ensures
        answer == starts_with(line@, text),
{
    let prefix = text.as_bytes();
    line.len() >= prefix.len() && same_bytes(&line[0..prefix.len()], prefix)
}

/// What a request with this first line asks for.
fn find_route(first_line: &[u8]) -> (route: Route)
    ensures
        route == route_of(first_line@),
{
    if has_prefix(first_line, "GET /ready ") {
        Route::Ready
    } else if has_prefix(first_line, "POST /fraud-score ") {
        Route::FraudScore
    } else if first_line.len() == 0 {
        Route::BadRequest
    } else {
        Route::NotFound
    }
}

/// Whether the end of the first request, going by its header, fits `usize`.
pub fn check_end(input: &[u8]) -> (answer: bool)
    ensures
        answer == end_fits(input@),
{
    match find_header_end(input) {
        None => true,
        Some(header_end) => {
            let header = &input[0..header_end];
            assert(header@ =~= input@.take(header_end as int));
            let first: usize = find_byte(header, 0x0a, 0);
            if first >= header_end {
                return true;
            }
            let headers = &input[first + 1..header_end];
            match find_length(headers) {
                Length::Missing => true,
                Length::Fits(length) => length <= usize::MAX - (header_end + 4),
                Length::TooLarge => false,
            }
        },
    }
}

/// The first request of the stream, once all of it is there.
pub fn next_request(input: &[u8]) -> (found: Option<Request>)
    requires
        end_fits(input@),
    ensures
        match found {
            Some(found) => request(input@) == Some(found@) && found.body_start <= found.end
                <= input.len(),
            None => request(input@) is None,
        },
{
    let header_end: usize = find_header_end(input)?;
    let header = &input[0..header_end];
    assert(header@ =~= input@.take(header_end as int));
    let first: usize = find_byte(header, 0x0a, 0);
    if first >= header_end {
        return None;
    }
    let first_line = trim_cr(&header[0..first]);
    assert(header@.subrange(0, first as int) =~= input@.take(first as int));
    let headers = &input[first + 1..header_end];
    let body_start: usize = header_end + 4;
    let length: usize = match parse_content_length(headers) {
        Some(length) => length,
        None => 0,
    };
    let end: usize = body_start + length;
    if input.len() < end {
        return None;
    }
    Some(Request { route: find_route(first_line), body_start, end })
}

/// The answer to a count of frauds.
fn fraud_text(frauds: u8) -> (text: &'static str)
    ensures
        text_bytes(text) == fraud_response(frauds as int),
{
    match frauds {
        0 => {
            "HTTP/1.1 200 OK\r\nContent-Length: 35\r\n\r\n{\"approved\":true,\"fraud_score\":0.0}"
        },
        1 => {
            "HTTP/1.1 200 OK\r\nContent-Length: 35\r\n\r\n{\"approved\":true,\"fraud_score\":0.2}"
        },
        2 => {
            "HTTP/1.1 200 OK\r\nContent-Length: 35\r\n\r\n{\"approved\":true,\"fraud_score\":0.4}"
        },
        3 => {
            "HTTP/1.1 200 OK\r\nContent-Length: 36\r\n\r\n{\"approved\":false,\"fraud_score\":0.6}"
        },
        4 => {
            "HTTP/1.1 200 OK\r\nContent-Length: 36\r\n\r\n{\"approved\":false,\"fraud_score\":0.8}"
        },
        _ => {
            "HTTP/1.1 200 OK\r\nContent-Length: 36\r\n\r\n{\"approved\":false,\"fraud_score\":1.0}"
        },
    }
}

/// The answer to a request, given how many of the nearest transactions are frauds.
pub fn answer(route: Route, frauds: Option<u8>) -> (answered: Vec<u8>)
    ensures
        answered@ == response(
            route,
            match frauds {
                Some(frauds) => Some(frauds as nat),
                None => None,
            },
        ),
{
    let text: &str = match route {
        Route::Ready => "HTTP/1.1 204 No Content\r\nContent-Length: 0\r\n\r\n",
        Route::FraudScore => fraud_text(
            match frauds {
                Some(frauds) => frauds,
                None => 0,
            },
        ),
        Route::BadRequest => "HTTP/1.1 400 Bad Request\r\nContent-Length: 0\r\n\r\n",
        Route::NotFound => "HTTP/1.1 404 Not Found\r\nContent-Length: 0\r\n\r\n",
    };
    vstd::slice::slice_to_vec(text.as_bytes())
}

/// Takes the first request off the stream and answers it. `query` is the transaction in its body,
/// where that could be read. Before all of the request is there, the stream stays as it is.
pub fn process_one(
    input: &mut Vec<u8>,
    query: Option<&Query>,
    index: &IvfIndex,
    config: &IvfConfig,
) -> (answered: Option<Vec<u8>>)
    requires
        end_fits(old(input)@),
        index.wf(),
        query matches Some(query) ==> query.distances@.len() == index.clusters && index.frauds_fit(
            query,
            config,
        ),
    ensures
        match request(old(input)@) {
            Some(found) => {
                &&& answered matches Some(answered) && answered@ == response(
                    found.route,
                    match query {
                        Some(query) => Some(index.frauds(query, config)),
                        None => None,
                    },
                )
                &&& final(input)@ == old(input)@.skip(found.end)
            },
            None => answered is None && final(input)@ == old(input)@,
        },
        request(old(input)@) matches Some(found) ==> requests(old(input)@) == seq![
            Asked {
                route: found.route,
                body: old(input)@.subrange(found.body_start, found.end),
            },
        ] + requests(final(input)@),
        remainder(final(input)@) == remainder(old(input)@),
{
    let found = next_request(input.as_slice())?;
    let frauds: Option<u8> = match (found.route, query) {
        (Route::FraudScore, Some(query)) => Some(index.fraud_count(query, config)),
        _ => None,
    };
    let rest = input.split_off(found.end);
    *input = rest;
    Some(answer(found.route, frauds))
}

/// The header of a stream ends where it did, whatever comes behind it.
proof fn lemma_header_end_stays(input: Seq<u8>, more: Seq<u8>, at: int)
    requires
        0 <= at,
        header_end(input, at) is Some,
    ensures
        header_end(input + more, at) == header_end(input, at),
        header_end(input, at) matches Some(end) && at <= end && end + 4 <= input.len(),
    decreases input.len() - at,
{
    let all = input + more;
    assert(forall|i: int| 0 <= i < input.len() ==> all[i] == input[i]);
    if !is_header_end(input, at) {
        lemma_header_end_stays(input, more, at + 1);
    }
}

/// A position found lies within the bytes.
proof fn lemma_find_in_range(bytes: Seq<u8>, byte: u8, at: int)
    requires
        0 <= at <= bytes.len(),
    ensures
        at <= find(bytes, byte, at) <= bytes.len(),
    decreases bytes.len() - at,
{
    if at < bytes.len() && bytes[at] != byte {
        lemma_find_in_range(bytes, byte, at + 1);
    }
}

/// A request is the same however much of the stream has come behind it, and taking it off leaves
/// what came behind it.
pub proof fn law_more_bytes_keep_the_request(input: Seq<u8>, more: Seq<u8>)
    requires
        request(input) is Some,
    ensures
        request(input + more) == request(input),
        request(input) matches Some(found) && (input + more).skip(found.end) == input.skip(
            found.end,
        ) + more,
{
    let all = input + more;
    lemma_header_end_stays(input, more, 0);
    if let Some(header) = header_end(input, 0) {
        assert(all.take(header) =~= input.take(header));
        let first = find(input.take(header), 0x0a, 0);
        lemma_find_in_range(input.take(header), 0x0a, 0);
        assert(all.subrange(first + 1, header) =~= input.subrange(first + 1, header));
        assert(all.take(first) =~= input.take(first));
        lemma_content_length(input.subrange(first + 1, header), 0);
    }
    if let Some(found) = request(input) {
        assert(all.skip(found.end) =~= input.skip(found.end) + more);
    }
}

/// Requests that came together are answered one after the other: the first as if it had come
/// alone, and what is left is the rest.
pub proof fn law_requests_are_taken_in_order(first: Seq<u8>, rest: Seq<u8>)
    requires
        request(first) matches Some(found) && found.end == first.len(),
    ensures
        request(first + rest) == request(first),
        request(first + rest) matches Some(found) && (first + rest).skip(found.end) == rest,
{
    law_more_bytes_keep_the_request(first, rest);
    assert((first + rest).skip(first.len() as int) =~= rest);
}

/// A request ends behind its body's start, and within the stream: each one that is taken off makes
/// the stream shorter.
pub proof fn law_requests_shorten_the_stream(input: Seq<u8>)
    requires
        request(input) is Some,
    ensures
        request(input) matches Some(found) && 4 <= found.body_start <= found.end <= input.len(),
{
    lemma_header_end_stays(input, seq![], 0);
    if let Some(header) = header_end(input, 0) {
        let first = find(input.take(header), 0x0a, 0);
        lemma_find_in_range(input.take(header), 0x0a, 0);
        lemma_content_length(input.subrange(first + 1, header), 0);
    }
}

/// A declared length is not negative.
proof fn lemma_content_length(headers: Seq<u8>, at: int)
    ensures
        content_length(headers, at) matches Some(length) ==> length >= 0,
    decreases headers.len() - at,
{
    let end = find(headers, 0x0a, at);
    let line = without_cr(headers.subrange(at, end));
    let colon = find(line, 0x3a, 0);
    let trimmed = without_trailing(without_leading(line.skip(colon + 1)));
    let run = digits_end(trimmed, 0);
    lemma_digits_end(trimmed, 0);
    lemma_decimal_grows(trimmed, 0, 0, run);
    assert(trimmed.take(run) =~= trimmed.subrange(0, run));
    if at <= end < headers.len() {
        lemma_content_length(headers, end + 1);
    }
}

/// What a request asks for, and with what.
pub ghost struct Asked {
    pub route: Route,
    pub body: Seq<u8>,
}

/// The requests that are taken off a stream one after the other, until none is whole.
pub open spec fn requests(input: Seq<u8>) -> Seq<Asked>
    decreases input.len(),
{
    match request(input) {
        Some(found) => {
            proof {
                law_requests_shorten_the_stream(input);
            }
            seq![
                Asked { route: found.route, body: input.subrange(found.body_start, found.end) },
            ] + requests(input.skip(found.end))
        },
        None => seq![],
    }
}

/// What is left of a stream once no more request can be taken off.
pub open spec fn remainder(input: Seq<u8>) -> Seq<u8>
    decreases input.len(),
{
    match request(input) {
        Some(found) => {
            proof {
                law_requests_shorten_the_stream(input);
            }
            remainder(input.skip(found.end))
        },
        None => input,
    }
}

/// The answers to requests, one behind the other, where `frauds` gives the count of frauds for
/// each body that can be read.
pub open spec fn responses(asked: Seq<Asked>, frauds: spec_fn(Seq<u8>) -> Option<nat>) -> Seq<u8>
    decreases asked.len(),
{
    if asked.len() == 0 {
        seq![]
    } else {
        response(asked[0].route, frauds(asked[0].body)) + responses(asked.drop_first(), frauds)
    }
}

/// What is left of a stream is no longer than the stream, and holds no whole request.
pub proof fn law_remainder_holds_no_request(input: Seq<u8>)
    ensures
        remainder(input).len() <= input.len(),
        request(remainder(input)) is None,
        requests(remainder(input)) == Seq::<Asked>::empty(),
    decreases input.len(),
{
    if let Some(found) = request(input) {
        law_requests_shorten_the_stream(input);
        law_remainder_holds_no_request(input.skip(found.end));
    }
}

/// A stream may be cut anywhere: its requests are those of the part before the cut, followed by
/// those of what that part left together with the part behind the cut, and the same is left.
pub proof fn law_streams_may_be_cut_anywhere(before: Seq<u8>, behind: Seq<u8>)
    ensures
        requests(before + behind) == requests(before) + requests(remainder(before) + behind),
        remainder(before + behind) == remainder(remainder(before) + behind),
    decreases before.len(),
{
    match request(before) {
        Some(found) => {
            let all = before + behind;
            let rest = before.skip(found.end);
            law_requests_shorten_the_stream(before);
            law_more_bytes_keep_the_request(before, behind);
            law_streams_may_be_cut_anywhere(rest, behind);
            assert(all.skip(found.end) =~= rest + behind);
            assert(all.subrange(found.body_start, found.end) =~= before.subrange(
                found.body_start,
                found.end,
            ));
            assert(requests(all) =~= requests(before) + requests(remainder(before) + behind));
        },
        None => {
            assert(requests(before + behind) =~= requests(before) + requests(
                remainder(before) + behind,
            ));
        },
    }
}

/// The answers to requests and further requests are the answers to the ones and the others.
pub proof fn law_responses_follow_the_requests(
    first: Seq<Asked>,
    second: Seq<Asked>,
    frauds: spec_fn(Seq<u8>) -> Option<nat>,
)
    ensures
        responses(first + second, frauds) == responses(first, frauds) + responses(second, frauds),
    decreases first.len(),
{
    if first.len() == 0 {
        assert(first + second =~= second);
        assert(responses(first, frauds) + responses(second, frauds) =~= responses(second, frauds));
    } else {
        law_responses_follow_the_requests(first.drop_first(), second, frauds);
        assert((first + second).drop_first() =~= first.drop_first() + second);
        assert(responses(first + second, frauds) =~= responses(first, frauds) + responses(
            second,
            frauds,
        ));
    }
}

/// The bytes that the first lines of requests are told by.
proof fn lemma_route_texts()
    ensures
        text_bytes("GET /ready ").len() == 11,
        text_bytes("GET /ready ")[0] == 0x47,
        text_bytes("POST /fraud-score ").len() == 18,
        text_bytes("POST /fraud-score ")[0] == 0x50,
{
    reveal_strlit("GET /ready ");
    reveal_strlit("POST /fraud-score ");
    vstd::utf8::is_ascii_chars_encode_utf8("GET /ready "@);
    vstd::utf8::is_ascii_chars_encode_utf8("POST /fraud-score "@);
}

/// What a request asks for is told by how its first line starts, whatever follows; an empty one
/// asks for nothing, and any other for something that there is not.
pub proof fn law_first_lines_tell_what_is_asked_for(rest: Seq<u8>, line: Seq<u8>)
    ensures
        route_of(text_bytes("GET /ready ") + rest) == Route::Ready,
        route_of(text_bytes("POST /fraud-score ") + rest) == Route::FraudScore,
        line.len() == 0 ==> route_of(line) == Route::BadRequest,
        route_of(line) == Route::Ready ==> text_bytes("GET /ready ").is_prefix_of(line),
        route_of(line) == Route::FraudScore ==> text_bytes("POST /fraud-score ").is_prefix_of(line),
        route_of(line) == Route::BadRequest ==> line.len() == 0,
{
    lemma_route_texts();
    let ready = text_bytes("GET /ready ") + rest;
    let score = text_bytes("POST /fraud-score ") + rest;
    assert(ready.subrange(0, 11) =~= text_bytes("GET /ready "));
    assert(score.subrange(0, 18) =~= text_bytes("POST /fraud-score "));
    if starts_with(score, "GET /ready ") {
        assert(score.subrange(0, 11)[0] == score[0]);
    }
    if line.len() == 0 {
        assert(!starts_with(line, "GET /ready "));
        assert(!starts_with(line, "POST /fraud-score "));
    }
}

/// A transaction with fewer than three frauds among its five neighbours is approved, one with three
/// or more is not, and the score is a fifth for each; one that could not be read counts as none.
/// Other requests are answered by what they ask for alone.
pub proof fn law_answers_tell_the_count(frauds: Option<nat>, count: nat)
    ensures
        response(Route::FraudScore, None) == response(Route::FraudScore, Some(0)),
        response(Route::FraudScore, Some(0)) == text_bytes(
            "HTTP/1.1 200 OK\r\nContent-Length: 35\r\n\r\n{\"approved\":true,\"fraud_score\":0.0}",
        ),
        response(Route::FraudScore, Some(1)) == text_bytes(
            "HTTP/1.1 200 OK\r\nContent-Length: 35\r\n\r\n{\"approved\":true,\"fraud_score\":0.2}",
        ),
        response(Route::FraudScore, Some(2)) == text_bytes(
            "HTTP/1.1 200 OK\r\nContent-Length: 35\r\n\r\n{\"approved\":true,\"fraud_score\":0.4}",
        ),
        response(Route::FraudScore, Some(3)) == text_bytes(
            "HTTP/1.1 200 OK\r\nContent-Length: 36\r\n\r\n{\"approved\":false,\"fraud_score\":0.6}",
        ),
        response(Route::FraudScore, Some(4)) == text_bytes(
            "HTTP/1.1 200 OK\r\nContent-Length: 36\r\n\r\n{\"approved\":false,\"fraud_score\":0.8}",
        ),
        count >= 5 ==> response(Route::FraudScore, Some(count)) == text_bytes(
            "HTTP/1.1 200 OK\r\nContent-Length: 36\r\n\r\n{\"approved\":false,\"fraud_score\":1.0}",
        ),
        response(Route::Ready, frauds) == text_bytes(
            "HTTP/1.1 204 No Content\r\nContent-Length: 0\r\n\r\n",
        ),
        response(Route::BadRequest, frauds) == text_bytes(
            "HTTP/1.1 400 Bad Request\r\nContent-Length: 0\r\n\r\n",
        ),
        response(Route::NotFound, frauds) == text_bytes(
            "HTTP/1.1 404 Not Found\r\nContent-Length: 0\r\n\r\n",
        ),
{
}

} // verus!
