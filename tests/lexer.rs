use rust_http_parse::{ByteSource, HttpMethod, LexStep, Lexer, Token};
use std::str::FromStr;

#[test]
fn lexes_valid_get_request_line() {
    let input = "GET / HTTP/1.1\r\nHeader-1: value\r\nAnother-Header: different value\r\n\r\n";
    let mut source = ByteSource::new(input.as_bytes());
    let mut lexer = Lexer::new();

    assert_eq!(
        Some(Token::Method(HttpMethod::from_str("GET").unwrap())),
        lexer.next(&mut source)
    );
    assert_eq!(Some(Token::Path("/".to_string())), lexer.next(&mut source));
    assert_eq!(Some(Token::Protocol), lexer.next(&mut source));
    assert_eq!(Some(Token::Crlf), lexer.next(&mut source));

    assert_eq!(
        Some(Token::HeaderName("Header-1".to_string())),
        lexer.next(&mut source)
    );
    assert_eq!(
        Some(Token::HeaderValue("value".to_string())),
        lexer.next(&mut source)
    );

    assert_eq!(
        Some(Token::HeaderName("Another-Header".to_string())),
        lexer.next(&mut source)
    );
    assert_eq!(
        Some(Token::HeaderValue("different value".to_string())),
        lexer.next(&mut source)
    );
    assert_eq!(Some(Token::Crlf), lexer.next(&mut source));

    lexer.next(&mut source);
    assert_eq!(None, lexer.next(&mut source));
}

#[test]
fn lexes_path_with_period() {
    let input = "GET /static/test.txt HTTP/1.1\r\nHeader-1: value\r\nAnother-Header: different value\r\n\r\n";
    let mut source = ByteSource::new(input.as_bytes());
    let mut lexer = Lexer::new();

    assert_eq!(
        Some(Token::Method(HttpMethod::from_str("GET").unwrap())),
        lexer.next(&mut source)
    );
    assert_eq!(
        Some(Token::Path("/static/test.txt".to_string())),
        lexer.next(&mut source)
    );
    assert_eq!(Some(Token::Protocol), lexer.next(&mut source));
    assert_eq!(Some(Token::Crlf), lexer.next(&mut source));

    assert_eq!(
        Some(Token::HeaderName("Header-1".to_string())),
        lexer.next(&mut source)
    );
    assert_eq!(
        Some(Token::HeaderValue("value".to_string())),
        lexer.next(&mut source)
    );

    assert_eq!(
        Some(Token::HeaderName("Another-Header".to_string())),
        lexer.next(&mut source)
    );
    assert_eq!(
        Some(Token::HeaderValue("different value".to_string())),
        lexer.next(&mut source)
    );
    assert_eq!(Some(Token::Crlf), lexer.next(&mut source));

    lexer.next(&mut source);

    assert_eq!(None, lexer.next(&mut source));
}

#[test]
fn lexer_asks_for_a_chunk_before_any_input() {
    let mut lexer = Lexer::new();
    assert_eq!(LexStep::Read(1024), lexer.step());
    lexer.supply(b"GET");
    assert_eq!(LexStep::Read(1024), lexer.step());
    lexer.supply(b" ");
    assert_eq!(LexStep::Token(Token::Method(HttpMethod::GET)), lexer.step());
}

#[test]
fn lexer_finishes_at_end_of_input() {
    let mut lexer = Lexer::new();
    lexer.supply(b"");
    assert_eq!(LexStep::Finished, lexer.step());
    assert_eq!(LexStep::Finished, lexer.step());
}

#[test]
fn lexer_asks_for_the_rest_of_a_declared_body() {
    let mut lexer = Lexer::new();
    lexer.supply(b"PUT /x HTTP/1.1\r\nContent-Length: 10\r\n\r\nabc");
    for _ in 0..6 {
        assert!(matches!(lexer.step(), LexStep::Token(_)));
    }
    assert_eq!(LexStep::Token(Token::Crlf), lexer.step());
    assert_eq!(LexStep::Read(7), lexer.step());
    lexer.supply(b"defghijXYZ");
    assert_eq!(LexStep::Token(Token::Body(b"abcdefghij".to_vec())), lexer.step());
    assert_eq!(LexStep::Finished, lexer.step());
}

#[test]
fn lexer_rejects_a_method_without_boundary() {
    let mut source = ByteSource::new(b"PATCHFOO / HTTP/1.1\r\n\r\n");
    let mut lexer = Lexer::new();
    assert_eq!(Some(Token::Error), lexer.next(&mut source));
    assert_eq!(None, lexer.next(&mut source));
}

#[test]
fn lexer_rejects_an_uppercase_path() {
    let mut source = ByteSource::new(b"GET /Index HTTP/1.1\r\n\r\n");
    let mut lexer = Lexer::new();
    assert_eq!(Some(Token::Method(HttpMethod::GET)), lexer.next(&mut source));
    assert_eq!(Some(Token::Path("/".to_string())), lexer.next(&mut source));
    assert_eq!(Some(Token::Error), lexer.next(&mut source));
}

#[test]
fn lexer_skips_spaces_and_tabs_in_the_request_line() {
    let mut source = ByteSource::new(b"  HEAD \t /a  HTTP/1.1 \r\n\r\n");
    let mut lexer = Lexer::new();
    assert_eq!(Some(Token::Method(HttpMethod::HEAD)), lexer.next(&mut source));
    assert_eq!(Some(Token::Path("/a".to_string())), lexer.next(&mut source));
    assert_eq!(Some(Token::Protocol), lexer.next(&mut source));
    assert_eq!(Some(Token::Crlf), lexer.next(&mut source));
    assert_eq!(Some(Token::Crlf), lexer.next(&mut source));
    assert_eq!(Some(Token::Body(Vec::new())), lexer.next(&mut source));
    assert_eq!(None, lexer.next(&mut source));
}

#[test]
fn lexer_reports_the_size_guard_once() {
    let mut input = b"GET / HTTP/1.1\r\nA: ".to_vec();
    input.extend(std::iter::repeat(b'v').take(9000));
    input.extend_from_slice(b"\r\n\r\n");
    let mut source = ByteSource::new(&input);
    let mut lexer = Lexer::new();
    for _ in 0..5 {
        assert!(lexer.next(&mut source).is_some());
    }
    assert_eq!(Some(Token::MaxHeaderSizeExceeded), lexer.next(&mut source));
    assert_eq!(None, lexer.next(&mut source));
}

#[test]
fn byte_source_hands_out_bytes_in_order() {
    let mut source = ByteSource::new(b"abcde");
    assert_eq!(b"ab".to_vec(), source.read(2));
    assert_eq!(b"cde".to_vec(), source.read(10));
    assert_eq!(Vec::<u8>::new(), source.read(10));
}

#[test]
fn protocol_is_a_prefix_match() {
    let mut source = ByteSource::new(b"GET / HTTP/1.10\r\n\r\n");
    let mut lexer = Lexer::new();
    assert_eq!(Some(Token::Method(HttpMethod::GET)), lexer.next(&mut source));
    assert_eq!(Some(Token::Path("/".to_string())), lexer.next(&mut source));
    assert_eq!(Some(Token::Protocol), lexer.next(&mut source));
    assert_eq!(Some(Token::Error), lexer.next(&mut source));
    assert_eq!(None, lexer.next(&mut source));
}

#[test]
fn protocol_followed_directly_by_crlf() {
    let mut source = ByteSource::new(b"HTTP/1.1\r\n");
    let mut lexer = Lexer::new();
    assert_eq!(Some(Token::Protocol), lexer.next(&mut source));
    assert_eq!(Some(Token::Crlf), lexer.next(&mut source));
}

#[test]
fn long_run_of_spaces_in_request_line_trips_the_guard() {
    let mut input = b"GET".to_vec();
    input.extend(std::iter::repeat(b' ').take(20000));
    input.extend_from_slice(b"/ HTTP/1.1\r\n\r\n");
    let mut source = ByteSource::new(&input);
    let mut lexer = Lexer::new();
    assert_eq!(Some(Token::Method(HttpMethod::GET)), lexer.next(&mut source));
    assert_eq!(Some(Token::MaxHeaderSizeExceeded), lexer.next(&mut source));
    assert_eq!(None, lexer.next(&mut source));
}

#[test]
fn header_section_reads_stop_near_the_guard() {
    let mut lexer = Lexer::new();
    lexer.supply(b"GET /");
    let mut fed = 5;
    loop {
        match lexer.step() {
            LexStep::Read(n) => {
                assert_eq!(1024, n);
                assert!(fed <= 8192 + 2);
                lexer.supply(&vec![b'a'; n]);
                fed += n;
            }
            LexStep::Token(Token::Method(HttpMethod::GET)) => {}
            LexStep::Token(t) => {
                assert_eq!(Token::MaxHeaderSizeExceeded, t);
                break;
            }
            LexStep::Finished => panic!("finished early"),
        }
    }
    assert!(fed <= 8192 + 2 + 1024);
}

#[test]
fn next_reads_nothing_when_the_buffer_decides() {
    let mut lexer = Lexer::new();
    lexer.supply(b"GET / HTTP/1.1\r\n");
    let mut source = ByteSource::new(b"more");
    assert_eq!(Some(Token::Method(HttpMethod::GET)), lexer.next(&mut source));
    assert_eq!(b"more".to_vec(), source.read(10));
}

#[test]
fn next_reads_only_the_declared_body() {
    let mut source =
        ByteSource::new(b"POST / HTTP/1.1\r\nContent-Length: 3\r\n\r\n");
    let mut lexer = Lexer::new();
    for _ in 0..7 {
        assert!(lexer.next(&mut source).is_some());
    }
    let mut rest = ByteSource::new(b"abcdef");
    assert_eq!(Some(Token::Body(b"abc".to_vec())), lexer.next(&mut rest));
    assert_eq!(b"def".to_vec(), rest.read(10));
}
