use ivf_fraud::config::IvfConfig;
use ivf_fraud::http::{
    answer, check_end, find_header_end, next_request, parse_content_length, process_one, Request,
    Route,
};
use ivf_fraud::index::IvfIndex;
use ivf_fraud::session::receive;

const READY: &[u8] = b"HTTP/1.1 204 No Content\r\nContent-Length: 0\r\n\r\n";
const NOT_FOUND: &[u8] = b"HTTP/1.1 404 Not Found\r\nContent-Length: 0\r\n\r\n";
const BAD_REQUEST: &[u8] = b"HTTP/1.1 400 Bad Request\r\nContent-Length: 0\r\n\r\n";

fn empty_index() -> IvfIndex {
    IvfIndex {
        n: 0,
        clusters: 0,
        centroids: Vec::new(),
        bbox_min: Vec::new(),
        bbox_max: Vec::new(),
        offsets: vec![0],
        labels: Vec::new(),
        orig_ids: Vec::new(),
        blocks: Vec::new(),
    }
}

fn process(input: &mut Vec<u8>) -> Option<Vec<u8>> {
    assert!(check_end(input));
    process_one(input, None, &empty_index(), &IvfConfig::from_env(&[]))
}

fn route_of(first_line: &str) -> Route {
    let input = format!("{first_line}\r\nHost: a\r\n\r\n");
    next_request(input.as_bytes()).unwrap().route
}

#[test]
fn header_ends_at_the_first_blank_line() {
    assert_eq!(find_header_end(b"ab\r\n\r\ncd\r\n\r\n"), Some(2));
    assert_eq!(find_header_end(b"\r\n\r\n"), Some(0));
    assert_eq!(find_header_end(b"\r\r\n\r\n"), Some(1));
    assert_eq!(find_header_end(b"ab\r\n\r"), None);
    assert_eq!(find_header_end(b"ab\n\n"), None);
    assert_eq!(find_header_end(b""), None);
}

#[test]
fn content_length_is_found_by_name() {
    assert_eq!(parse_content_length(b"Host: a\r\nContent-Length: 12\r\nX: y"), Some(12));
    assert_eq!(parse_content_length(b"CONTENT-length:\t 007 \r"), Some(7));
    assert_eq!(parse_content_length(b"content-length: 12abc"), Some(12));
    assert_eq!(parse_content_length(b"content-length: 1\r\ncontent-length: 2"), Some(1));
    assert_eq!(parse_content_length(b"content-length: x\r\ncontent-length: 2"), Some(2));
    assert_eq!(parse_content_length(b"content-length: \r\nHost: b"), None);
    assert_eq!(parse_content_length(b"Host: a"), None);
    assert_eq!(parse_content_length(b"x-content-length: 3"), None);
    assert_eq!(parse_content_length(b""), None);
}

#[test]
fn line_without_a_colon_ends_the_search() {
    assert_eq!(parse_content_length(b"oops\r\nContent-Length: 12"), None);
    assert_eq!(parse_content_length(b"Content-Length: 12\r\noops"), Some(12));
    assert_eq!(parse_content_length(b"Host: a\n\nContent-Length: 12"), None);
}

#[test]
fn requests_are_told_apart_by_their_first_line() {
    assert_eq!(route_of("GET /ready HTTP/1.1"), Route::Ready);
    assert_eq!(route_of("POST /fraud-score HTTP/1.1"), Route::FraudScore);
    assert_eq!(route_of("GET /ready"), Route::NotFound);
    assert_eq!(route_of("GET /readyz HTTP/1.1"), Route::NotFound);
    assert_eq!(route_of("GET /fraud-score HTTP/1.1"), Route::NotFound);
    assert_eq!(route_of(" GET /ready HTTP/1.1"), Route::NotFound);
    assert_eq!(route_of(""), Route::BadRequest);
}

#[test]
fn request_is_found_once_its_body_is_there() {
    let head = b"POST /fraud-score HTTP/1.1\r\nContent-Length: 4\r\n\r\n";
    let mut input = head.to_vec();
    for byte in b"body" {
        assert_eq!(next_request(&input), None);
        input.push(*byte);
    }
    let found = Request { route: Route::FraudScore, body_start: head.len(), end: head.len() + 4 };
    assert_eq!(next_request(&input), Some(found));
    input.extend_from_slice(b"GET /ready");
    assert_eq!(next_request(&input), Some(found));
    assert_eq!(&input[found.body_start..found.end], b"body");
}

#[test]
fn header_of_a_single_line_is_never_a_request() {
    let mut input = b"GET /ready HTTP/1.1\r\n\r\n".to_vec();
    assert_eq!(process(&mut input), None);
    assert_eq!(input, b"GET /ready HTTP/1.1\r\n\r\n".to_vec());
}

#[test]
fn requests_in_one_stream_are_answered_in_order() {
    let mut input = Vec::new();
    input.extend_from_slice(b"GET /ready HTTP/1.1\r\nHost: a\r\n\r\n");
    input.extend_from_slice(b"POST /fraud-score HTTP/1.1\r\nContent-Length: 2\r\n\r\n{}");
    input.extend_from_slice(b"GET /other HTTP/1.1\r\nHost: a\r\n\r\n");
    input.extend_from_slice(b"\r\nHost: a\r\n\r\n");
    input.extend_from_slice(b"GET /rea");
    assert_eq!(process(&mut input), Some(READY.to_vec()));
    assert_eq!(process(&mut input), Some(answer(Route::FraudScore, Some(0))));
    assert_eq!(process(&mut input), Some(NOT_FOUND.to_vec()));
    assert_eq!(process(&mut input), Some(BAD_REQUEST.to_vec()));
    assert_eq!(process(&mut input), None);
    assert_eq!(input, b"GET /rea".to_vec());
}

#[test]
fn stream_may_come_in_any_pieces() {
    let whole = b"POST /x HTTP/1.1\r\nContent-Length: 3\r\n\r\nabcGET /ready HTTP/1.1\r\nA: b\r\n\r\n";
    for cut in 0..=whole.len() {
        let mut input = whole[..cut].to_vec();
        let mut answers = Vec::new();
        while let Some(answered) = process(&mut input) {
            answers.push(answered);
        }
        input.extend_from_slice(&whole[cut..]);
        while let Some(answered) = process(&mut input) {
            answers.push(answered);
        }
        assert_eq!(answers, vec![NOT_FOUND.to_vec(), READY.to_vec()], "{cut}");
        assert!(input.is_empty());
    }
}

#[test]
fn lengths_beyond_the_machine_are_told() {
    assert!(!check_end(b"GET /ready HTTP/1.1\r\nContent-Length: 99999999999999999999999\r\n\r\n"));
    let largest = format!("GET /ready HTTP/1.1\r\nContent-Length: {}\r\n\r\n", usize::MAX);
    assert!(!check_end(largest.as_bytes()));
    let header = largest.len();
    let fits = format!("GET /ready HTTP/1.1\r\nContent-Length: {}\r\n\r\n", usize::MAX - header);
    assert_eq!(fits.len(), header);
    assert!(check_end(fits.as_bytes()));
    assert_eq!(next_request(fits.as_bytes()), None);
    assert!(check_end(b"GET /ready HTTP/1.1\r\nContent-Length: 99999999999999999999999\r\n"));
    assert!(check_end(b"GET /ready HTTP/1.1\r\n\r\n"));
}

#[test]
fn scores_are_fifths_and_are_approved_below_three() {
    for (frauds, approved, score) in [
        (0, true, "0.0"),
        (1, true, "0.2"),
        (2, true, "0.4"),
        (3, false, "0.6"),
        (4, false, "0.8"),
        (5, false, "1.0"),
        (6, false, "1.0"),
        (255, false, "1.0"),
    ] {
        let body = format!("{{\"approved\":{approved},\"fraud_score\":{score}}}");
        let expected = format!("HTTP/1.1 200 OK\r\nContent-Length: {}\r\n\r\n{body}", body.len());
        assert_eq!(answer(Route::FraudScore, Some(frauds)), expected.into_bytes());
    }
    assert_eq!(answer(Route::FraudScore, None), answer(Route::FraudScore, Some(0)));
}

#[test]
fn answers_declare_the_length_of_their_body() {
    for route in [Route::Ready, Route::FraudScore, Route::BadRequest, Route::NotFound] {
        for frauds in 0..=6 {
            let answered = answer(route, Some(frauds));
            let header = find_header_end(&answered).unwrap();
            let first = answered.iter().position(|&byte| byte == b'\n').unwrap();
            let length = parse_content_length(&answered[first + 1..header]).unwrap();
            assert_eq!(header + 4 + length, answered.len());
        }
    }
    assert_eq!(answer(Route::Ready, Some(3)), READY.to_vec());
    assert_eq!(answer(Route::BadRequest, None), BAD_REQUEST.to_vec());
    assert_eq!(answer(Route::NotFound, None), NOT_FOUND.to_vec());
}

/// What a connection sends back, read by read.
fn serve(reads: &[&[u8]]) -> Vec<u8> {
    let mut pending = Vec::new();
    let mut written = Vec::new();
    for read in reads {
        if !receive(&mut pending, read) {
            break;
        }
        while let Some(answered) = process(&mut pending) {
            written.extend_from_slice(&answered);
        }
    }
    written
}

#[test]
fn answers_do_not_depend_on_the_reads() {
    let mut stream = Vec::new();
    for _ in 0..3 {
        stream.extend_from_slice(b"GET /ready HTTP/1.1\r\nA: b\r\n\r\n");
        stream.extend_from_slice(b"POST /fraud-score HTTP/1.1\r\nContent-Length: 6\r\n\r\n\r\n\r\n{}");
        stream.extend_from_slice(b"\r\nContent-Length: 1\r\n\r\nx");
    }
    stream.extend_from_slice(b"GET /ready HTTP/1.1\r\nContent-Length: 9\r\n\r\nx");
    let mut expected = Vec::new();
    for _ in 0..3 {
        expected.extend_from_slice(READY);
        expected.extend_from_slice(&answer(Route::FraudScore, None));
        expected.extend_from_slice(BAD_REQUEST);
    }
    assert_eq!(serve(&[&stream]), expected);
    for size in 1..stream.len() {
        let reads: Vec<&[u8]> = stream.chunks(size).collect();
        assert_eq!(serve(&reads), expected, "{size}");
    }
    assert_eq!(serve(&[&stream, b"12345678"]).len(), expected.len() + READY.len());
    assert_eq!(serve(&[&stream, b"", b"12345678"]), expected);
}
