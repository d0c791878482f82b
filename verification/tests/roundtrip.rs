use bytes::{Bytes, BytesMut, BufMut};
use http::HeaderMap;
use multipart_stream::{parse, serialize, Next, Part};

fn serialize_all(boundary: &str, parts: &[Part]) -> Bytes {
    let mut s = serialize(boundary);
    let mut out = BytesMut::new();
    for p in parts {
        match s.accept::<()>(Some(Ok(p.clone()))) {
            Some(Ok(c)) => out.put(c),
            _ => unreachable!(),
        }
        while let Some(c) = s.next_chunk() {
            out.put(c);
        }
    }
    out.freeze()
}

fn parse_all(boundary: &str, bytes: &[u8], chunk_size: usize) -> Vec<Part> {
    let mut parser = parse(boundary);
    let mut chunks = bytes.chunks(chunk_size);
    let mut out = Vec::new();
    loop {
        match parser.poll_part() {
            Next::Part(p) => out.push(p),
            Next::Failed(e) => panic!("unexpected error {:?}", e),
            Next::End => return out,
            Next::NeedInput => match chunks.next() {
                Some(c) => parser.push_chunk(c),
                None => {
                    assert!(parser.finish_input().is_none());
                    return out;
                }
            },
        }
    }
}

#[test]
fn roundtrip() {
    let mut hdrs1 = HeaderMap::new();
    hdrs1.insert(http::header::CONTENT_TYPE, "text/plain".parse().unwrap());
    hdrs1.insert("X-My-Header1", "part1".parse().unwrap());
    let mut hdrs2 = HeaderMap::new();
    hdrs2.insert(http::header::CONTENT_TYPE, "text/plain".parse().unwrap());
    hdrs2.insert("X-My-Header2", "part 2".parse().unwrap());
    let input = vec![
        Part { headers: hdrs1, body: Bytes::from("part 1 body") },
        Part { headers: hdrs2, body: Bytes::from("this is part 2's body") },
    ];
    let bytes = serialize_all("my boundary", &input);
    for chunk_size in [1, 2, usize::MAX] {
        let mut output = parse_all("my boundary", &bytes, chunk_size);
        // Compare, without the added Content-Length header added by serialize.
        for p in &mut output {
            p.headers.remove(http::header::CONTENT_LENGTH);
        }
        assert_eq!(&input[..], &output[..]);
    }
}

#[test]
fn roundtrip_keeps_content_length_and_repeated_headers() {
    let mut headers = HeaderMap::new();
    headers.append("x-a", "1".parse().unwrap());
    headers.append("x-a", "2".parse().unwrap());
    let input = vec![Part { headers, body: Bytes::from("abc") }];
    let output = parse_all("b", &serialize_all("b", &input), usize::MAX);
    assert_eq!(output.len(), 1);
    let p = &output[0];
    assert_eq!(p.headers.get(http::header::CONTENT_LENGTH).unwrap(), "3");
    let values: Vec<&str> = p.headers.get_all("x-a").iter().map(|v| v.to_str().unwrap()).collect();
    assert_eq!(values, vec!["1", "2"]);
    assert_eq!(&p.body[..], b"abc");
}

#[test]
fn boundary_with_dashes_does_not_round_trip() {
    // The serializer always adds `--`; the parser does not when the boundary
    // already starts with it.
    let input = vec![Part { headers: HeaderMap::new(), body: Bytes::from("x") }];
    let bytes = serialize_all("--b", &input);
    assert_eq!(&bytes[..5], b"----b");
    let mut parser = parse("--b");
    parser.push_chunk(&bytes);
    assert!(matches!(parser.poll_part(), Next::Failed(_)));
}

#[test]
fn empty_body_round_trips() {
    let input = vec![
        Part { headers: HeaderMap::new(), body: Bytes::new() },
        Part { headers: HeaderMap::new(), body: Bytes::from("x") },
    ];
    let bytes = serialize_all("b", &input);
    assert_eq!(&bytes[..], b"--b\r\ncontent-length: 0\r\n\r\n--b\r\ncontent-length: 1\r\n\r\nx");
    for chunk_size in [1, 2, usize::MAX] {
        let output = parse_all("b", &bytes, chunk_size);
        assert_eq!(output.len(), 2);
        assert!(output[0].body.is_empty());
        assert_eq!(output[0].headers.get(http::header::CONTENT_LENGTH).unwrap(), "0");
        assert_eq!(&output[1].body[..], b"x");
    }
}
