use firecracker_sdk::errors::HttpError;
use firecracker_sdk::chunked::parse_chunked;
use firecracker_sdk::request::Method;
use firecracker_sdk::request::Request;
use firecracker_sdk::request::parse_http_request;
use firecracker_sdk::response::parse_http_response;

#[test]
fn test_simple() {
    let raw = b"HTTP/1.1 200 OK\r\nContent-Length: 13\r\nContent-Type: text/plain\r\n\r\nHello, world!";
    let res = parse_http_response(raw).unwrap();
    assert_eq!(res.status, 200);
    assert_eq!(res.header_value(b"content-type").unwrap(), b"text/plain".to_vec());
    assert_eq!(res.body, b"Hello, world!".to_vec());
}

#[test]
fn test_chunked() {
    let raw = b"HTTP/1.1 200 OK\r\nTransfer-Encoding: chunked\r\n\r\n5\r\nHello\r\n6\r\n, worl\r\n2\r\nd!\r\n0\r\n\r\n";
    let res = parse_http_response(raw).unwrap();
    assert_eq!(res.body, b"Hello, world!".to_vec());
}

#[test]
fn request_round_trip_recovers_built_request() {
    let req = Request::new_request(b"/boot-source", Method::Put)
        .add_header(b"Host", b"localhost")
        .add_header(b"Content-Type", b"application/json")
        .body(b"{\"kernel_image_path\":\"/k\"}");
    let raw = req.build();
    let parsed = parse_http_request(&raw).unwrap();
    assert_eq!(parsed.method, Method::Put);
    assert_eq!(parsed.target, b"/boot-source".to_vec());
    assert_eq!(parsed.body, b"{\"kernel_image_path\":\"/k\"}".to_vec());
    assert_eq!(parsed.headers.len(), req.headers.len());
    for (k, v) in &req.headers {
        let found = parsed.headers.iter().find(|(pk, _)| pk == k);
        assert_eq!(found.map(|(_, pv)| pv.clone()), Some(v.clone()));
    }
}

#[test]
fn request_build_wire_form() {
    let req = Request::new_request(b"/actions", Method::Put)
        .add_header(b"Host", b"localhost")
        .body(b"abcde");
    let raw = req.build();
    let text = String::from_utf8(raw.to_vec()).unwrap();
    assert!(text.starts_with("PUT /actions HTTP/1.1\r\n"));
    assert!(text.contains("Host: localhost\r\n"));
    assert!(text.contains("Content-Length: 5\r\n"));
    assert!(text.ends_with("\r\n\r\nabcde"));
}

#[test]
fn add_header_replaces_existing_name_in_place() {
    let req = Request::new_request(b"/x", Method::Get)
        .add_header(b"A", b"1")
        .add_header(b"B", b"2")
        .add_header(b"A", b"3");
    assert_eq!(req.headers.len(), 2);
    assert_eq!(req.headers[0].0, b"A".to_vec());
    assert_eq!(req.headers[0].1, b"3".to_vec());
    assert_eq!(req.headers[1].0, b"B".to_vec());
}

#[test]
fn body_refreshes_content_length() {
    let req = Request::new_request(b"/x", Method::Put).body(b"12345").body(b"123");
    let cl = req.headers.iter().find(|(k, _)| k == b"Content-Length");
    assert_eq!(cl.map(|(_, v)| v.clone()), Some(b"3".to_vec()));
    assert_eq!(req.body, b"123".to_vec());
}

#[test]
fn content_length_exact_when_enough_bytes_remain() {
    let raw = b"HTTP/1.1 200 OK\r\nContent-Length: 5\r\n\r\nHello, world!";
    let res = parse_http_response(raw).unwrap();
    assert_eq!(res.body, b"Hello".to_vec());
}

#[test]
fn content_length_clamps_to_remaining_bytes() {
    let raw = b"HTTP/1.1 200 OK\r\nContent-Length: 999\r\n\r\nHello";
    let res = parse_http_response(raw).unwrap();
    assert_eq!(res.body, b"Hello".to_vec());
}

#[test]
fn no_body_headers_yields_whole_remainder() {
    let raw = b"HTTP/1.1 204 No Content\r\nServer: x\r\n\r\nrest";
    let res = parse_http_response(raw).unwrap();
    assert_eq!(res.status, 204);
    assert_eq!(res.body, b"rest".to_vec());
}

#[test]
fn empty_body_without_length_headers_is_empty_not_error() {
    let raw = b"HTTP/1.1 200 OK\r\nServer: x\r\n\r\n";
    let res = parse_http_response(raw).unwrap();
    assert_eq!(res.body, Vec::<u8>::new());
}

#[test]
fn zero_length_chunked_body_is_empty() {
    let raw = b"HTTP/1.1 200 OK\r\nTransfer-Encoding: chunked\r\n\r\n0\r\n\r\n";
    let res = parse_http_response(raw).unwrap();
    assert_eq!(res.body, Vec::<u8>::new());
}

#[test]
fn chunk_payload_concatenation_is_exact() {
    let raw = b"3\r\nabc\r\n1\r\nd\r\n2\r\nef\r\n0\r\n\r\n";
    assert_eq!(parse_chunked(raw).unwrap(), b"abcdef".to_vec());
}

#[test]
fn chunk_extension_and_upper_hex_are_accepted() {
    let raw = b"A;name=v\r\n0123456789\r\n0\r\n\r\n";
    assert_eq!(parse_chunked(raw).unwrap(), b"0123456789".to_vec());
}

#[test]
fn chunk_size_line_is_trimmed() {
    let raw = b" 3 \r\nabc\r\n0\r\n\r\n";
    assert_eq!(parse_chunked(raw).unwrap(), b"abc".to_vec());
}

#[test]
fn truncated_chunk_is_an_error() {
    let raw = b"HTTP/1.1 200 OK\r\nTransfer-Encoding: chunked\r\n\r\n5\r\nHel";
    assert_eq!(parse_http_response(raw).unwrap_err(), HttpError::TruncatedChunk);
}

#[test]
fn missing_chunk_terminator_is_an_error() {
    let raw = b"HTTP/1.1 200 OK\r\nTransfer-Encoding: chunked\r\n\r\n3\r\nabcXY0\r\n\r\n";
    assert_eq!(parse_http_response(raw).unwrap_err(), HttpError::MissingChunkTerminator);
}

#[test]
fn invalid_chunk_size_is_an_error() {
    let raw = b"zz\r\nabc\r\n0\r\n\r\n";
    assert_eq!(parse_chunked(raw).unwrap_err(), HttpError::InvalidChunkSize);
}

#[test]
fn missing_size_line_ending_is_truncated_chunk() {
    let raw = b"5";
    assert_eq!(parse_chunked(raw).unwrap_err(), HttpError::TruncatedChunk);
}

#[test]
fn overflowing_content_length_is_an_error() {
    let raw = b"HTTP/1.1 200 OK\r\nContent-Length: 99999999999999999999999\r\n\r\nhello";
    assert_eq!(parse_http_response(raw).unwrap_err(), HttpError::InvalidContentLength);
}

#[test]
fn overflowing_chunk_size_is_an_error() {
    let raw = b"fffffffffffffffff\r\nabc\r\n0\r\n\r\n";
    assert_eq!(parse_chunked(raw).unwrap_err(), HttpError::InvalidChunkSize);
}

#[test]
fn absent_header_looks_up_as_none() {
    let raw = b"HTTP/1.1 200 OK\r\nContent-Length: 0\r\n\r\n";
    let res = parse_http_response(raw).unwrap();
    assert_eq!(res.header_value(b"server"), None);
}

#[test]
fn invalid_content_length_is_an_error() {
    let raw = b"HTTP/1.1 200 OK\r\nContent-Length: abc\r\n\r\nhello";
    assert_eq!(parse_http_response(raw).unwrap_err(), HttpError::InvalidContentLength);
}

#[test]
fn non_utf8_body_is_invalid_encoding() {
    let raw = b"HTTP/1.1 200 OK\r\nContent-Length: 2\r\n\r\n\xff\xfe";
    assert_eq!(parse_http_response(raw).unwrap_err(), HttpError::InvalidEncoding);
}

#[test]
fn malformed_status_line_is_an_error() {
    let raw = b"FTP/1.1 200 OK\r\n\r\n";
    assert_eq!(parse_http_response(raw).unwrap_err(), HttpError::MalformedResponse);
}

#[test]
fn status_code_below_one_hundred_is_an_error() {
    let raw = b"HTTP/1.1 099 Weird\r\n\r\n";
    assert_eq!(parse_http_response(raw).unwrap_err(), HttpError::MalformedResponse);
}

#[test]
fn unknown_three_digit_status_still_parses() {
    let raw = b"HTTP/1.1 799 Odd\r\nContent-Length: 0\r\n\r\n";
    let res = parse_http_response(raw).unwrap();
    assert_eq!(res.status, 799);
}

#[test]
fn status_line_without_reason_parses() {
    let raw = b"HTTP/1.1 200\r\n\r\n";
    let res = parse_http_response(raw).unwrap();
    assert_eq!(res.status, 200);
}

#[test]
fn duplicate_headers_fold_with_comma_separator() {
    let raw = b"HTTP/1.1 200 OK\r\nX-Tag: a\r\nX-Tag: b\r\nx-tag: c\r\nContent-Length: 0\r\n\r\n";
    let res = parse_http_response(raw).unwrap();
    assert_eq!(res.header_value(b"x-tag").unwrap(), b"a, b, c".to_vec());
}

#[test]
fn header_names_fold_to_lower_case() {
    let raw = b"HTTP/1.1 200 OK\r\nCoNtEnT-TyPe: text/html\r\nContent-Length: 0\r\n\r\n";
    let res = parse_http_response(raw).unwrap();
    assert_eq!(res.header_value(b"content-type").unwrap(), b"text/html".to_vec());
    assert_eq!(res.header_value(b"CoNtEnT-TyPe"), None);
}

#[test]
fn missing_separator_treats_whole_buffer_as_headers() {
    let raw = b"HTTP/1.1 200 OK\r\nServer: x";
    let res = parse_http_response(raw).unwrap();
    assert_eq!(res.status, 200);
    assert_eq!(res.body, Vec::<u8>::new());
}

#[test]
fn malformed_request_without_separator_is_an_error() {
    assert_eq!(parse_http_request(b"garbage").unwrap_err(), HttpError::MalformedRequest);
}

#[test]
fn request_parse_keeps_header_name_case_and_repeats() {
    let raw = b"GET /x HTTP/1.1\r\nA: 1\r\nA: 2\r\n\r\n";
    let parsed = parse_http_request(raw).unwrap();
    assert_eq!(parsed.method, Method::Get);
    assert_eq!(parsed.target, b"/x".to_vec());
    assert_eq!(parsed.headers.len(), 2);
    assert_eq!(parsed.headers[0], (b"A".to_vec(), b"1".to_vec()));
    assert_eq!(parsed.headers[1], (b"A".to_vec(), b"2".to_vec()));
}
