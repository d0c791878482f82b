use bytes::{BufMut, Bytes, BytesMut};
use http::HeaderMap;
use multipart_stream::{serialize, Part, Serializer};

/// Runs `input` through `serializer` and collects what it sends, stopping at
/// the first error.
fn collect<E>(mut serializer: Serializer, input: Vec<Result<Part, E>>) -> Result<Bytes, E> {
    let mut input = input.into_iter();
    let mut accum = BytesMut::new();
    loop {
        if let Some(chunk) = serializer.next_chunk() {
            accum.put(chunk);
            continue;
        }
        match serializer.accept(input.next()) {
            None => return Ok(accum.freeze()),
            Some(Err(e)) => return Err(e),
            Some(Ok(chunk)) => accum.put(chunk),
        }
    }
}

#[test]
fn success() {
    let input = vec![
        Ok::<_, std::convert::Infallible>(Part { headers: HeaderMap::new(), body: "foo".into() }),
        Ok::<_, std::convert::Infallible>(Part { headers: HeaderMap::new(), body: "bar".into() }),
    ];
    let collected = collect(serialize("b"), input).unwrap();
    let collected = std::str::from_utf8(&collected[..]).unwrap();
    assert_eq!(
        collected,
        "--b\r\ncontent-length: 3\r\n\r\nfoo\
         --b\r\ncontent-length: 3\r\n\r\nbar"
    );
}

#[test]
fn err() {
    let e: Box<dyn std::error::Error + Send + Sync> = "uh-oh".to_owned().into();
    let input: Vec<Result<Part, _>> = vec![Err(e)];
    assert_eq!(collect(serialize("b"), input).unwrap_err().to_string(), "uh-oh");
}

#[test]
fn content_length_replaces_every_previous_value() {
    let mut headers = HeaderMap::new();
    headers.append(http::header::CONTENT_LENGTH, "7".parse().unwrap());
    headers.append(http::header::CONTENT_LENGTH, "8".parse().unwrap());
    let input = vec![Ok::<_, std::convert::Infallible>(Part { headers, body: Bytes::from("twelve bytes") })];
    let collected = collect(serialize("xyz"), input).unwrap();
    assert_eq!(&collected[..], b"--xyz\r\ncontent-length: 12\r\n\r\ntwelve bytes");
}

#[test]
fn framing_chunk_by_chunk() {
    let mut s = serialize("b");
    assert!(s.next_chunk().is_none());
    let mut headers = HeaderMap::new();
    headers.insert("x-a", "1".parse().unwrap());
    let first = s.start_part(Part { headers, body: Bytes::from("body") });
    assert_eq!(&first[..], b"--b\r\n");
    let block = s.next_chunk().unwrap();
    let block = std::str::from_utf8(&block).unwrap();
    assert_eq!(block, "x-a: 1\r\ncontent-length: 4\r\n\r\n");
    assert_eq!(&s.next_chunk().unwrap()[..], b"body");
    assert!(s.next_chunk().is_none());
    assert!(s.accept::<()>(None).is_none());
}


#[test]
fn headers_are_sent_in_map_order_with_content_length_in_place() {
    let mut headers = HeaderMap::new();
    headers.append("x-a", "1".parse().unwrap());
    headers.append(http::header::CONTENT_LENGTH, "7".parse().unwrap());
    headers.append("x-b", "2".parse().unwrap());
    headers.append("x-a", "3".parse().unwrap());
    let input = vec![Ok::<_, std::convert::Infallible>(Part { headers, body: Bytes::from("hi") })];
    let collected = collect(serialize("b"), input).unwrap();
    assert_eq!(
        &collected[..],
        &b"--b\r\nx-a: 1\r\nx-a: 3\r\ncontent-length: 2\r\nx-b: 2\r\n\r\nhi"[..]
    );
}
