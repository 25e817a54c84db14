use rust_http_parse::{parse, HttpMethod, ParseError, ParseStep, Parser};
use std::str::FromStr;

#[test]
fn parses_simple_valid_get_request() {
    let input = "GET / HTTP/1.1\r\n\
    Header-1: value1\r\n\
    Header-2: value2\r\n\
    Header-3: value3\r\n\
    \r\n";

    let request = parse(input.as_bytes()).unwrap();

    assert_eq!(HttpMethod::from_str("GET").unwrap(), request.method);
    assert_eq!("/", request.path);

    assert_eq!(Some(&"value1".to_string()), request.header("Header-1"));
    assert_eq!(Some(&"value2".to_string()), request.header("Header-2"));
    assert_eq!(Some(&"value3".to_string()), request.header("Header-3"));
}

#[test]
fn parses_simple_valid_post_request_with_body() {
    let input = "POST / HTTP/1.1\r\n\
    Header-1: value1\r\n\
    Header-2: value2\r\n\
    Header-3: value3\r\n\
    \r\nThis is the body";

    let request = parse(input.as_bytes()).unwrap();

    assert_eq!(HttpMethod::from_str("POST").unwrap(), request.method);
    assert_eq!("/", request.path);

    assert_eq!(Some(&"value1".to_string()), request.header("Header-1"));
    assert_eq!(Some(&"value2".to_string()), request.header("Header-2"));
    assert_eq!(Some(&"value3".to_string()), request.header("Header-3"));

    assert_eq!("This is the body", request.body_as_string());
}

#[test]
fn only_reads_content_length_bytes_of_body_if_content_length_header_used() {
    let input = "POST / HTTP/1.1\r\n\
    Content-Length: 4\r\n\
    \r\nThis is the body";

    let request = parse(input.as_bytes()).unwrap();

    assert_eq!(HttpMethod::from_str("POST").unwrap(), request.method);
    assert_eq!("/", request.path);

    assert_eq!("This", request.body_as_string());
}

#[test]
fn parses_request_larger_than_1024_bytes() {
    let mut input = String::from(
        "POST / HTTP/1.1\r\n\
    Header-1: value1\r\n\
    Header-2: value2\r\n\
    Header-3: value3\r\n\
    Content-Length: 50000\r\n\
    \r\n",
    );
    input.push_str(&"x".repeat(50000));

    let request = parse(input.as_bytes()).unwrap();

    assert_eq!(HttpMethod::from_str("POST").unwrap(), request.method);
    assert_eq!("/", request.path);

    assert_eq!(Some(&"value1".to_string()), request.header("Header-1"));
    assert_eq!(Some(&"value2".to_string()), request.header("Header-2"));
    assert_eq!(Some(&"value3".to_string()), request.header("Header-3"));

    assert_eq!(50000, request.body_as_string().len());
}

#[test]
fn large_header_value_returns_max_header_exceeded_error() {
    let mut input = String::from(
        "POST / HTTP/1.1\r\n\
    Header-1: ",
    );
    input.push_str(&"x".repeat(50000));
    input.push_str("\r\nHeader-2: value2\r\n\r\n");

    let request = parse(input.as_bytes());

    if let Err(e) = request {
        assert_eq!(ParseError::MaxHeaderSizeExceeded, e);
    } else {
        panic!("Expected error, got OK");
    }
}

#[test]
fn parses_path_with_dots_and_slashes() {
    let request = parse(b"GET /static/test.txt HTTP/1.1\r\nA: b\r\n\r\n").unwrap();
    assert_eq!("/static/test.txt", request.path);
    assert_eq!(Some(&"b".to_string()), request.header("A"));
}

#[test]
fn header_value_keeps_inner_text_and_drops_leading_blanks() {
    let request = parse(b"GET / HTTP/1.1\r\nX-Note: \t  a b\tc \r\n\r\n").unwrap();
    assert_eq!(Some(&"a b\tc ".to_string()), request.header("X-Note"));
    assert_eq!(None, request.header("x-note"));
}

#[test]
fn header_names_accept_the_token_charset() {
    let request = parse(b"GET / HTTP/1.1\r\nX!#$%&'*+-.^_`|~9: v\r\n\r\n").unwrap();
    assert_eq!(Some(&"v".to_string()), request.header("X!#$%&'*+-.^_`|~9"));
}

#[test]
fn later_header_replaces_earlier_one() {
    let request = parse(b"GET / HTTP/1.1\r\nA: one\r\nB: two\r\nA: three\r\n\r\n").unwrap();
    assert_eq!(Some(&"three".to_string()), request.header("A"));
    assert_eq!(Some(&"two".to_string()), request.header("B"));
}

#[test]
fn header_order_does_not_change_the_mapping() {
    let a = parse(b"GET / HTTP/1.1\r\nA: 1\r\nB: 2\r\nC: 3\r\n\r\n").unwrap();
    let b = parse(b"GET / HTTP/1.1\r\nC: 3\r\nA: 1\r\nB: 2\r\n\r\n").unwrap();
    for name in ["A", "B", "C", "D"] {
        assert_eq!(a.header(name), b.header(name));
    }
}

#[test]
fn content_length_zero_gives_empty_body() {
    let request = parse(b"POST / HTTP/1.1\r\nContent-Length: 0\r\n\r\nignored").unwrap();
    assert_eq!(0, request.body().len());
}

#[test]
fn content_length_name_is_matched_in_any_case() {
    let request = parse(b"POST / HTTP/1.1\r\ncOnTeNt-LeNgTh:   3\r\n\r\nabcdef").unwrap();
    assert_eq!(b"abc", request.body());
    assert_eq!(Some(&"3".to_string()), request.header("cOnTeNt-LeNgTh"));
}

#[test]
fn content_length_equals_body_length() {
    let request = parse(b"PUT /f HTTP/1.1\r\nContent-Length: 7\r\n\r\n0123456789").unwrap();
    assert_eq!(7, request.body().len());
    assert_eq!(b"0123456", request.body());
}

#[test]
fn later_valid_content_length_wins() {
    let request =
        parse(b"POST / HTTP/1.1\r\nContent-Length: 2\r\nContent-Length: 5\r\n\r\nabcdefg").unwrap();
    assert_eq!(b"abcde", request.body());
}

#[test]
fn invalid_content_length_is_treated_as_absent() {
    let request = parse(b"POST / HTTP/1.1\r\nContent-Length: 4x\r\n\r\nabcdefg").unwrap();
    assert_eq!(b"abcdefg", request.body());
    let request = parse(b"POST / HTTP/1.1\r\nContent-Length: +4\r\n\r\nabcdefg").unwrap();
    assert_eq!(b"abcdefg", request.body());
    let request = parse(b"POST / HTTP/1.1\r\nContent-Length: \r\n\r\nab").unwrap();
    assert_eq!(b"ab", request.body());
}

#[test]
fn invalid_content_length_keeps_an_earlier_valid_one() {
    let request =
        parse(b"POST / HTTP/1.1\r\nContent-Length: 3\r\nContent-Length: no\r\n\r\nabcdefg").unwrap();
    assert_eq!(b"abc", request.body());
}

#[test]
fn content_length_too_large_for_usize_is_treated_as_absent() {
    let request =
        parse(b"POST / HTTP/1.1\r\nContent-Length: 99999999999999999999999\r\n\r\nab").unwrap();
    assert_eq!(b"ab", request.body());
}

#[test]
fn short_body_under_content_length_is_early_eof() {
    let result = parse(b"POST / HTTP/1.1\r\nContent-Length: 10\r\n\r\nabc");
    assert_eq!(Err(ParseError::EarlyEof), result.map(|_| ()));
}

#[test]
fn empty_input_is_early_eof() {
    assert_eq!(Err(ParseError::EarlyEof), parse(b"").map(|_| ()));
}

#[test]
fn input_ending_inside_headers_is_early_eof() {
    assert_eq!(
        Err(ParseError::EarlyEof),
        parse(b"GET / HTTP/1.1\r\nHost: x").map(|_| ())
    );
    assert_eq!(
        Err(ParseError::EarlyEof),
        parse(b"GET / HTTP/1.1\r\nHost: x\r\n").map(|_| ())
    );
}

#[test]
fn unknown_method_is_unexpected() {
    let result = parse(b"FETCH / HTTP/1.1\r\n\r\n");
    assert!(matches!(result, Err(ParseError::Unexpected { .. })));
}

#[test]
fn missing_path_is_unexpected() {
    let result = parse(b"GET HTTP/1.1\r\n\r\n");
    assert_eq!(
        Err(ParseError::Unexpected {
            msg: "Expected path".to_string()
        }),
        result.map(|_| ())
    );
}

#[test]
fn wrong_protocol_is_unexpected() {
    let result = parse(b"GET / HTTP/1.0\r\n\r\n");
    assert!(matches!(result, Err(ParseError::Unexpected { .. })));
}

#[test]
fn bad_header_name_is_unexpected() {
    let result = parse(b"GET / HTTP/1.1\r\nBad Name: v\r\n\r\n");
    assert!(matches!(result, Err(ParseError::Unexpected { .. })));
    let result = parse(b"GET / HTTP/1.1\r\n: v\r\n\r\n");
    assert!(matches!(result, Err(ParseError::Unexpected { .. })));
}

#[test]
fn bare_line_feed_in_value_is_unexpected() {
    let result = parse(b"GET / HTTP/1.1\r\nA: x\ny\r\n\r\n");
    assert!(matches!(result, Err(ParseError::Unexpected { .. })));
}

#[test]
fn header_section_just_under_the_guard_parses() {
    // request line 16 bytes, header line 5 + n bytes: the blank line starts at 21 + n
    let mut input = b"GET / HTTP/1.1\r\nA: ".to_vec();
    input.extend(std::iter::repeat(b'v').take(8192 - 21));
    input.extend_from_slice(b"\r\n\r\n");
    let request = parse(&input).unwrap();
    assert_eq!(8192 - 21, request.header("A").unwrap().len());
}

#[test]
fn header_section_just_over_the_guard_is_rejected() {
    let mut input = b"GET / HTTP/1.1\r\nA: ".to_vec();
    input.extend(std::iter::repeat(b'v').take(8192 - 20));
    input.extend_from_slice(b"\r\n\r\n");
    assert_eq!(
        Err(ParseError::MaxHeaderSizeExceeded),
        parse(&input).map(|_| ())
    );
}

#[test]
fn long_path_trips_the_guard() {
    let mut input = b"GET /".to_vec();
    input.extend(std::iter::repeat(b'a').take(9000));
    input.extend_from_slice(b" HTTP/1.1\r\n\r\n");
    assert_eq!(
        Err(ParseError::MaxHeaderSizeExceeded),
        parse(&input).map(|_| ())
    );
}

#[test]
fn body_with_invalid_utf8_is_decoded_lossily() {
    let request = parse(b"POST / HTTP/1.1\r\n\r\nab\xffcd").unwrap();
    assert_eq!(b"ab\xffcd", request.body());
    assert_eq!("ab\u{fffd}cd", request.body_as_string());
}

#[test]
fn header_value_with_utf8_is_decoded() {
    let request = parse("GET / HTTP/1.1\r\nName: Zoë\r\n\r\n".as_bytes()).unwrap();
    assert_eq!(Some(&"Zoë".to_string()), request.header("Name"));
}

#[test]
fn every_method_is_recognised() {
    for (word, method) in [
        ("GET", HttpMethod::GET),
        ("HEAD", HttpMethod::HEAD),
        ("POST", HttpMethod::POST),
        ("PUT", HttpMethod::PUT),
        ("PATCH", HttpMethod::PATCH),
        ("OPTIONS", HttpMethod::OPTIONS),
        ("TRACE", HttpMethod::TRACE),
    ] {
        let input = format!("{} / HTTP/1.1\r\n\r\n", word);
        assert_eq!(method, parse(input.as_bytes()).unwrap().method);
    }
}

#[test]
fn parser_fed_one_byte_at_a_time_gives_the_same_request() {
    let input = b"POST /up HTTP/1.1\r\nContent-Length: 5\r\nX: y\r\n\r\nhelloEXTRA";
    let mut parser = Parser::new();
    let mut at = 0;
    let request = loop {
        match parser.step() {
            ParseStep::Read(n) => {
                assert!(n > 0);
                let end = if at < input.len() { at + 1 } else { at };
                parser.supply(&input[at..end]);
                at = end;
            }
            ParseStep::Done(r) => break r.unwrap(),
        }
    };
    assert_eq!(HttpMethod::POST, request.method);
    assert_eq!("/up", request.path);
    assert_eq!(b"hello", request.body());
    assert_eq!(Some(&"y".to_string()), request.header("X"));
    assert_eq!(input.len() - 5, at);
}

#[test]
fn parser_reports_early_eof_after_it_is_done() {
    let mut parser = Parser::new();
    parser.supply(b"GET / HTTP/1.1\r\n\r\n");
    parser.supply(b"");
    assert!(matches!(parser.step(), ParseStep::Done(Ok(_))));
    assert!(matches!(parser.step(), ParseStep::Done(Err(ParseError::EarlyEof))));
}

#[test]
fn simple_get_has_exactly_its_headers_and_no_body() {
    let input = b"GET / HTTP/1.1\r\nHeader-1: value1\r\nHeader-2: value2\r\nHeader-3: value3\r\n\r\n";
    let request = parse(input).unwrap();
    assert_eq!(HttpMethod::GET, request.method);
    assert_eq!("/", request.path);
    assert_eq!(Some(&"value3".to_string()), request.header("Header-3"));
    assert_eq!(None, request.header("Header-4"));
    assert!(request.body().is_empty());
}

#[test]
fn post_without_content_length_reads_body_to_end() {
    let request = parse(b"POST / HTTP/1.1\r\nHeader-1: value1\r\n\r\nThis is the body").unwrap();
    assert_eq!(HttpMethod::POST, request.method);
    assert_eq!("/", request.path);
    assert_eq!(b"This is the body", request.body());
}

#[test]
fn request_line_with_runs_of_blanks_parses() {
    let request = parse(b"PUT \t /a/b\t\tHTTP/1.1\r\nK: v\r\nContent-Length: 2\r\n\r\nxyz").unwrap();
    assert_eq!(HttpMethod::PUT, request.method);
    assert_eq!("/a/b", request.path);
    assert_eq!(Some(&"v".to_string()), request.header("K"));
    assert_eq!(b"xy", request.body());
}

#[test]
fn protocol_with_extra_digit_is_unexpected() {
    let result = parse(b"GET / HTTP/1.10\r\n\r\n");
    assert!(matches!(result, Err(ParseError::Unexpected { .. })));
}

#[test]
fn guard_inside_a_header_name_is_reported() {
    let mut input = b"GET / HTTP/1.1\r\n".to_vec();
    input.extend(std::iter::repeat(b'N').take(9000));
    assert_eq!(
        Err(ParseError::MaxHeaderSizeExceeded),
        parse(&input).map(|_| ())
    );
}
