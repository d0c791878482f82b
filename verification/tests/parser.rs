use bytes::Bytes;
use http::HeaderMap;
use multipart_stream::parser::{body_len_within, headers_from_raw};
use multipart_stream::{parse, Error, ErrorKind, Next, Parser, ParserBuilder, Part};

/// Feeds `input` to `parser` in chunks of `chunk_size` bytes, polling for parts
/// after each, and collects what it reports until the stream ends.
fn drive(mut parser: Parser, input: &[u8], chunk_size: usize) -> Vec<Result<Part, Error>> {
    let mut chunks = input.chunks(chunk_size);
    let mut out = Vec::new();
    loop {
        match parser.poll_part() {
            Next::Part(p) => out.push(Ok(p)),
            Next::Failed(e) => out.push(Err(e)),
            Next::End => return out,
            Next::NeedInput => match chunks.next() {
                Some(c) => parser.push_chunk(c),
                None => match parser.finish_input() {
                    None => return out,
                    Some(e) => out.push(Err(e)),
                },
            },
        }
    }
}

/// Tries parsing `input` with chunks of different sizes arriving.
fn tester<F>(boundary: &str, input: &[u8], verify_parts: F)
where
    F: Fn(Vec<Result<Part, Error>>),
{
    for chunk_size in &[1, 2, usize::MAX] {
        let parser = ParserBuilder::new().parse(boundary);
        verify_parts(drive(parser, input, *chunk_size));
    }
}

#[test]
fn truncated_header() {
    let input = "--boundary\r\nPartial-Header";
    let verify_parts = |mut parts: Vec<Result<Part, Error>>| {
        assert_eq!(parts.len(), 1);
        parts.pop().unwrap().unwrap_err();
    };
    tester("boundary", input.as_bytes(), verify_parts);
    tester("--boundary", input.as_bytes(), verify_parts);
}

#[test]
fn truncated_data() {
    let input = "--boundary\r\nContent-Length: 42\r\n\r\n";
    let verify_parts = |mut parts: Vec<Result<Part, Error>>| {
        assert_eq!(parts.len(), 1);
        parts.pop().unwrap().unwrap_err();
    };
    tester("boundary", input.as_bytes(), verify_parts);
    tester("--boundary", input.as_bytes(), verify_parts);
}

#[test]
fn hikvision_style() {
    let input = [
        "--boundary\r\n",
        "Content-Type: application/xml; charset=\"UTF-8\"\r\n",
        "Content-Length: 480\r\n",
        "\r\n",
        "<EventNotificationAlert version=\"1.0\" ",
        "xmlns=\"http://www.hikvision.com/ver10/XMLSchema\">\r\n",
        "<ipAddress>192.168.5.106</ipAddress>\r\n",
        "<portNo>80</portNo>\r\n",
        "<protocol>HTTP</protocol>\r\n",
        "<macAddress>8c:e7:48:da:94:8f</macAddress>\r\n",
        "<channelID>1</channelID>\r\n",
        "<dateTime>2019-02-20T15:22:34-8:00</dateTime>\r\n",
        "<activePostCount>0</activePostCount>\r\n",
        "<eventType>videoloss</eventType>\r\n",
        "<eventState>inactive</eventState>\r\n",
        "<eventDescription>videoloss alarm</eventDescription>\r\n",
        "</EventNotificationAlert>\r\n",
        "--boundary\r\n",
        "Content-Type: application/xml; charset=\"UTF-8\"\r\n",
        "Content-Length: 480\r\n",
        "\r\n",
        "<EventNotificationAlert version=\"1.0\" ",
        "xmlns=\"http://www.hikvision.com/ver10/XMLSchema\">\r\n",
        "<ipAddress>192.168.5.106</ipAddress>\r\n",
        "<portNo>80</portNo>\r\n",
        "<protocol>HTTP</protocol>\r\n",
        "<macAddress>8c:e7:48:da:94:8f</macAddress>\r\n",
        "<channelID>1</channelID>\r\n",
        "<dateTime>2019-02-20T15:22:34-8:00</dateTime>\r\n",
        "<activePostCount>0</activePostCount>\r\n",
        "<eventType>videoloss</eventType>\r\n",
        "<eventState>inactive</eventState>\r\n",
        "<eventDescription>videoloss alarm</eventDescription>\r\n",
        "</EventNotificationAlert>\r\n",
    ]
    .concat();

    let verify_parts = |parts: Vec<Result<Part, Error>>| {
        let mut i = 0;
        for p in parts {
            let p = p.unwrap();
            assert_eq!(
                p.headers.get(http::header::CONTENT_TYPE).unwrap().to_str().unwrap(),
                "application/xml; charset=\"UTF-8\""
            );
            assert!(p.body.starts_with(b"<EventNotificationAlert"));
            assert!(p.body.ends_with(b"</EventNotificationAlert>\r\n"));
            i += 1;
        }
        assert_eq!(i, 2);
    };
    tester("boundary", input.as_bytes(), verify_parts);
    tester("--boundary", input.as_bytes(), verify_parts);
}

#[test]
fn dahua_style() {
    let input = [
        "--myboundary\r\n",
        "Content-Type: text/plain\r\n",
        "Content-Length:135\r\n",
        "\r\n",
        "Code=TimeChange;action=Pulse;index=0;data={\n",
        "   \"BeforeModifyTime\" : \"2019-02-20 13:49:58\",\n",
        "   \"ModifiedTime\" : \"2019-02-20 13:49:58\"\n",
        "}\n",
        "\r\n",
        "\r\n",
        "--myboundary\r\n",
        "Content-Type: text/plain\r\n",
        "Content-Length:137\r\n",
        "\r\n",
        "Code=NTPAdjustTime;action=Pulse;index=0;data={\n",
        "   \"Address\" : \"192.168.5.254\",\n",
        "   \"Before\" : \"2019-02-20 13:49:57\",\n",
        "   \"result\" : true\n",
        "}\n\r\n",
    ]
    .concat();
    let verify_parts = |parts: Vec<Result<Part, Error>>| {
        let mut i = 0;
        for p in parts {
            let p = p.unwrap();
            assert_eq!(
                p.headers.get(http::header::CONTENT_TYPE).unwrap().to_str().unwrap(),
                "text/plain"
            );
            match i {
                0 => assert!(p.body.starts_with(b"Code=TimeChange")),
                1 => assert!(p.body.starts_with(b"Code=NTPAdjustTime")),
                _ => unreachable!(),
            }
            i += 1;
        }
        assert_eq!(i, 2);
    };
    tester("myboundary", input.as_bytes(), verify_parts);
    tester("--myboundary", input.as_bytes(), verify_parts);
}

#[test]
fn dahua_heartbeat() {
    // Newlines before the first part are allowed.
    let input = [
        "\r\n--myboundary\r\n",
        "Content-Type: text/plain\r\n",
        "Content-Length:9\r\n\r\n",
        "Heartbeat",
    ]
    .concat();
    let verify_parts = |parts: Vec<Result<Part, Error>>| {
        let mut i = 0;
        for p in parts {
            let p = p.unwrap();
            assert_eq!(&p.body[..], b"Heartbeat");
            i += 1;
        }
        assert_eq!(i, 1);
    };
    tester("myboundary", input.as_bytes(), verify_parts);
    tester("--myboundary", input.as_bytes(), verify_parts);
}

fn single_error(parts: Vec<Result<Part, Error>>) -> Error {
    assert_eq!(parts.len(), 1);
    match parts.into_iter().next().unwrap() {
        Ok(p) => panic!("expected an error, got {:?}", p),
        Err(e) => e,
    }
}

#[test]
fn many_newlines_between_parts() {
    let input = "\r\n\r\n\r\n--b\r\nContent-Length: 1\r\n\r\nx\r\n\r\n--b\r\nContent-Length: 2\r\n\r\nyz\r\n";
    for chunk_size in [1, 3, usize::MAX] {
        let parts = drive(parse("b"), input.as_bytes(), chunk_size);
        assert_eq!(parts.len(), 2);
        let bodies: Vec<Bytes> = parts.into_iter().map(|p| p.unwrap().body).collect();
        assert_eq!(bodies, vec![Bytes::from("x"), Bytes::from("yz")]);
    }
}

#[test]
fn preamble_is_refused() {
    let e = single_error(drive(parse("b"), b"junk\r\n--b\r\n\r\n", usize::MAX));
    assert!(matches!(e.kind(), ErrorKind::BadBoundary));
}

#[test]
fn failed_parser_stays_finished() {
    let mut parser = parse("b");
    parser.push_chunk(b"xx");
    assert!(matches!(parser.poll_part(), Next::Failed(_)));
    parser.push_chunk(b"--b\r\nContent-Length: 1\r\n\r\nx");
    assert!(matches!(parser.poll_part(), Next::End));
    assert!(matches!(parser.poll_part(), Next::End));
}

#[test]
fn body_over_limit_is_refused() {
    let input = b"--b\r\nContent-Length: 42\r\n\r\n";
    let e = single_error(drive(ParserBuilder::new().max_body_bytes(10).parse("b"), input, usize::MAX));
    assert!(matches!(e.kind(), ErrorKind::BodyTooLarge { body_len: 42, max: 10 }));
    assert_eq!(e.message(), "body byte length 42 exceeds maximum of 10");
    let parts = drive(ParserBuilder::new().max_body_bytes(3).parse("b"), b"--b\r\nContent-Length: 3\r\n\r\nabc", 1);
    assert_eq!(&parts[0].as_ref().unwrap().body[..], b"abc");
}

#[test]
fn incomplete_headers_over_limit_are_refused() {
    let input = b"--b\r\nX-Long-Header: 0123456789\r\n\r\n";
    // Arriving in pieces, the incomplete header block reaches the limit.
    let e = single_error(drive(ParserBuilder::new().max_header_bytes(10).parse("b"), input, 4));
    assert!(matches!(e.kind(), ErrorKind::HeadersTooLarge { len, max: 10 } if *len >= 10));
    // Arriving whole, it is parsed whatever its length; the part then lacks its body.
    let e = single_error(drive(ParserBuilder::new().max_header_bytes(10).parse("b"), input, usize::MAX));
    assert!(matches!(e.kind(), ErrorKind::MidPartEof));
}

#[test]
fn invalid_headers_are_refused() {
    let e = single_error(drive(parse("b"), b"--b\r\nBad Header: 1\r\n\r\n", usize::MAX));
    assert!(matches!(e.kind(), ErrorKind::HeadersInvalid { .. }));
    assert_eq!(e.message(), "Part headers invalid: invalid header name");
}

#[test]
fn content_length_must_be_a_usize() {
    let e = single_error(drive(parse("b"), b"--b\r\nContent-Length: abc\r\n\r\n", usize::MAX));
    assert!(matches!(e.kind(), ErrorKind::ContentLengthNotUsize));
    let e = single_error(drive(parse("b"), b"--b\r\nContent-Length: 99999999999999999999999\r\n\r\n", usize::MAX));
    assert!(matches!(e.kind(), ErrorKind::ContentLengthNotUsize));
    let e = single_error(drive(parse("b"), b"--b\r\nContent-Length: -1\r\n\r\n", usize::MAX));
    assert!(matches!(e.kind(), ErrorKind::ContentLengthNotUsize));
    let parts = drive(parse("b"), b"--b\r\nContent-Length: +2\r\n\r\nok", usize::MAX);
    assert_eq!(&parts[0].as_ref().unwrap().body[..], b"ok");
}

#[test]
fn content_length_must_be_visible_ascii() {
    let e = single_error(drive(parse("b"), b"--b\r\nContent-Length: 1\x80\r\n\r\n", usize::MAX));
    assert!(matches!(e.kind(), ErrorKind::ContentLengthNotString));
}

#[test]
fn missing_content_length_reads_up_to_the_boundary() {
    let input = b"--b\r\n\r\nhello\r\n--b\r\nContent-Length: 1\r\n\r\nx";
    let parts = drive(parse("b"), input, usize::MAX);
    assert_eq!(parts.len(), 2);
    assert_eq!(&parts[0].as_ref().unwrap().body[..], b"hello\r\n");
    assert_eq!(&parts[1].as_ref().unwrap().body[..], b"x");
}

#[test]
fn eof_mid_part_is_an_error() {
    let e = single_error(drive(parse("b"), b"--b\r\nContent-Length: 3\r\n\r\nab", 1));
    assert!(matches!(e.kind(), ErrorKind::MidPartEof));
    let e = single_error(drive(parse("b"), b"--", usize::MAX));
    assert!(matches!(e.kind(), ErrorKind::MidPartEof));
}

#[test]
fn eof_between_parts_ends_the_stream() {
    assert!(drive(parse("b"), b"", usize::MAX).is_empty());
    assert!(drive(parse("b"), b"\r\n\r\n", 1).is_empty());
}

#[test]
fn input_failure_finishes_the_parser() {
    let mut parser = parse("b");
    assert!(matches!(parser.poll_part(), Next::NeedInput));
    let e = parser.fail_input();
    assert!(matches!(e.kind(), ErrorKind::Underlying));
    assert!(matches!(parser.poll_part(), Next::End));
}

#[test]
fn headers_keep_their_values_in_order() {
    let input = b"--b\r\nX-A: 1\r\nx-a: 2\r\nContent-Length: 1\r\n\r\nz";
    let parts = drive(parse("b"), input, usize::MAX);
    let p = parts.into_iter().next().unwrap().unwrap();
    let values: Vec<&str> = p.headers.get_all("x-a").iter().map(|v| v.to_str().unwrap()).collect();
    assert_eq!(values, vec!["1", "2"]);
    assert_eq!(p.headers.len(), 3);
}

#[test]
fn headers_from_raw_checks_names_and_values() {
    let raw: Vec<(&[u8], &[u8])> = vec![(b"X-A", b"1"), (b"x-a", b"2"), (b"Content-Type", b"text/plain")];
    let headers = headers_from_raw(&raw).unwrap();
    let values: Vec<&[u8]> = headers.get_all("x-a").iter().map(|v| v.as_bytes()).collect();
    assert_eq!(values, vec![&b"1"[..], &b"2"[..]]);
    assert_eq!(headers.get("content-type").unwrap(), "text/plain");
    let raw: Vec<(&[u8], &[u8])> = vec![(b"ok", b"1"), (b"bad name", b"2")];
    assert!(matches!(headers_from_raw(&raw).unwrap_err().kind(), ErrorKind::BadHeaderName));
    let raw: Vec<(&[u8], &[u8])> = vec![(b"ok", b"\x01"), (b"bad name", b"2")];
    assert!(matches!(headers_from_raw(&raw).unwrap_err().kind(), ErrorKind::BadHeaderValue));
    assert!(headers_from_raw(&[]).unwrap().is_empty());
}

#[test]
fn body_len_within_reads_content_length() {
    let mut headers = HeaderMap::new();
    assert_eq!(body_len_within(&headers, 0).unwrap(), None);
    headers.append(http::header::CONTENT_LENGTH, "17".parse().unwrap());
    headers.append(http::header::CONTENT_LENGTH, "zz".parse().unwrap());
    assert_eq!(body_len_within(&headers, 17).unwrap(), Some(17));
    assert!(matches!(
        body_len_within(&headers, 16).unwrap_err().kind(),
        ErrorKind::BodyTooLarge { body_len: 17, max: 16 }
    ));
}

#[test]
fn body_without_content_length_over_limit_is_refused() {
    let input = b"--b\r\nX: y\r\n\r\nabc--b\r\nContent-Length: 1\r\n\r\nz";
    for chunk_size in [1, 2, usize::MAX] {
        let e = single_error(drive(ParserBuilder::new().max_body_bytes(2).parse("b"), input, chunk_size));
        assert!(matches!(e.kind(), ErrorKind::BodyTooLarge { body_len: 3, max: 2 }));
    }
    let parts = drive(ParserBuilder::new().max_body_bytes(3).parse("b"), input, usize::MAX);
    assert_eq!(parts.len(), 2);
    assert_eq!(&parts[0].as_ref().unwrap().body[..], b"abc");
    assert_eq!(&parts[1].as_ref().unwrap().body[..], b"z");
}

#[test]
fn zero_content_length_gives_an_empty_part() {
    let input = b"--b\r\nContent-Length: 0\r\n\r\n--b\r\nContent-Length: 1\r\n\r\nz";
    for chunk_size in [1, 2, usize::MAX] {
        let parts = drive(parse("b"), input, chunk_size);
        assert_eq!(parts.len(), 2);
        let first = parts[0].as_ref().unwrap();
        assert!(first.body.is_empty());
        assert_eq!(first.headers.get(http::header::CONTENT_LENGTH).unwrap(), "0");
        assert_eq!(&parts[1].as_ref().unwrap().body[..], b"z");
    }
}

#[test]
fn boundary_right_after_headers_without_content_length_ends_no_body() {
    // With no Content-Length, a boundary line right after the header block does
    // not end the body: the parser goes on waiting, and the input ends mid-part.
    let input = b"--b\r\nX: y\r\n\r\n--b\r\nContent-Length: 1\r\n\r\nz";
    for chunk_size in [1, 2, usize::MAX] {
        let e = single_error(drive(parse("b"), input, chunk_size));
        assert!(matches!(e.kind(), ErrorKind::MidPartEof));
    }
}

#[test]
fn parsed_headers_keep_the_block_order() {
    let input = b"--b\r\nX-B: 1\r\nx-a: 2\r\nx-b: 3\r\nContent-Length: 1\r\n\r\nz";
    let parts = drive(parse("b"), input, usize::MAX);
    let p = parts.into_iter().next().unwrap().unwrap();
    let items: Vec<(&str, &str)> = p.headers.iter().map(|(n, v)| (n.as_str(), v.to_str().unwrap())).collect();
    assert_eq!(items, vec![("x-b", "1"), ("x-b", "3"), ("x-a", "2"), ("content-length", "1")]);
    let raw: Vec<(&[u8], &[u8])> = vec![(b"B", b"1"), (b"a", b"2"), (b"b", b"3")];
    let headers = headers_from_raw(&raw).unwrap();
    let items: Vec<(&str, &[u8])> = headers.iter().map(|(n, v)| (n.as_str(), v.as_bytes())).collect();
    assert_eq!(items, vec![("b", &b"1"[..]), ("b", &b"3"[..]), ("a", &b"2"[..])]);
}

#[test]
fn error_messages() {
    let e = single_error(drive(parse("b"), b"junk", usize::MAX));
    assert_eq!(e.message(), "bad boundary");
    let e = single_error(drive(ParserBuilder::new().max_header_bytes(10).parse("b"), b"--b\r\nX-Long-Header: 0", 100));
    assert_eq!(e.message(), "incomplete 16-byte header, vs maximum of 10 bytes");
    let e = single_error(drive(parse("b"), b"--b\r\nContent-Length: 3\r\n\r\nab", usize::MAX));
    assert_eq!(e.message(), "unexpected mid-part EOF");
    let e = single_error(drive(parse("b"), b"--b\r\nContent-Length: x\r\n\r\n", usize::MAX));
    assert_eq!(e.message(), "Part Content-Length is not valid usize");
    let e = single_error(drive(parse("b"), b"--b\r\nContent-Length: 1\x80\r\n\r\n", usize::MAX));
    assert_eq!(e.message(), "Part Content-Length is not valid string");
    let raw: Vec<(&[u8], &[u8])> = vec![(b"bad name", b"2")];
    assert_eq!(headers_from_raw(&raw).unwrap_err().message(), "bad header name");
    let raw: Vec<(&[u8], &[u8])> = vec![(b"ok", b"\x01")];
    assert_eq!(headers_from_raw(&raw).unwrap_err().message(), "bad header value");
    let mut parser = parse("b");
    assert_eq!(parser.fail_input().message(), "underlying stream failed");
}
