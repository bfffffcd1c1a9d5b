use blazingly::body::{BodyStreamError, UploadFile};
use blazingly::framing::parse_multipart;
use blazingly::multipart::{MAX_MULTIPART_HEADER_BYTES, MAX_MULTIPART_PARTS};
use blazingly::multipart_stream::{MultipartError, MultipartField, MultipartStream, Polled};
use blazingly::operation::ApiError;

const BOUNDARY: &str = "apibenchcover9f2c41d7e6b3";

fn content_type() -> String {
    format!("multipart/form-data; boundary={BOUNDARY}")
}

/// One part to assemble: field name, file name, media type, and data.
type TestPart<'data> = (
    &'data str,
    Option<&'data str>,
    Option<&'data str>,
    &'data [u8],
);

/// Assembles one `multipart/form-data` document.
fn multipart_document(parts: &[TestPart<'_>]) -> Vec<u8> {
    let mut body = Vec::new();
    for (name, file_name, media_type, data) in parts {
        body.extend_from_slice(format!("--{BOUNDARY}\r\n").as_bytes());
        body.extend_from_slice(
            format!("Content-Disposition: form-data; name=\"{name}\"").as_bytes(),
        );
        if let Some(file_name) = file_name {
            body.extend_from_slice(format!("; filename=\"{file_name}\"").as_bytes());
        }
        body.extend_from_slice(b"\r\n");
        if let Some(media_type) = media_type {
            body.extend_from_slice(format!("Content-Type: {media_type}\r\n").as_bytes());
        }
        body.extend_from_slice(b"\r\n");
        body.extend_from_slice(data);
        body.extend_from_slice(b"\r\n");
    }
    body.extend_from_slice(format!("--{BOUNDARY}--\r\n").as_bytes());
    body
}

/// A reader and the transport that feeds it in fixed-size chunks.
struct Reader {
    stream: MultipartStream,
    bytes: Vec<u8>,
    chunk: usize,
    position: usize,
    failure: Option<BodyStreamError>,
}

impl Reader {
    fn pull(&mut self) -> Result<(), MultipartError> {
        if self.position >= self.bytes.len() {
            if let Some(failure) = self.failure.clone() {
                return Err(self.stream.interrupt(failure));
            }
            self.stream.finish();
            return Ok(());
        }
        let end = self.bytes.len().min(self.position.saturating_add(self.chunk));
        let chunk = self.bytes[self.position..end].to_vec();
        self.position = end;
        self.stream.feed(&chunk);
        Ok(())
    }

    fn next_field(&mut self) -> Result<Option<MultipartField>, MultipartError> {
        loop {
            match self.stream.next_field()? {
                Polled::Ready(field) => return Ok(field),
                Polled::Pending => self.pull()?,
            }
        }
    }

    fn next_chunk(&mut self) -> Result<Option<Vec<u8>>, MultipartError> {
        loop {
            match self.stream.next_chunk()? {
                Polled::Ready(chunk) => return Ok(chunk),
                Polled::Pending => self.pull()?,
            }
        }
    }

    fn collect(&mut self, field: &mut MultipartField, limit: usize) -> Result<(), MultipartError> {
        while let Some(chunk) = self.next_chunk()? {
            field.collect(&chunk, limit)?;
        }
        Ok(())
    }

    /// Reads every part, returning its name and the bytes it carried.
    fn read_all(&mut self) -> Result<Vec<(String, Vec<u8>)>, MultipartError> {
        let mut parts = Vec::new();
        while let Some(field) = self.next_field()? {
            let name = field.name().to_string();
            let mut bytes = Vec::new();
            while let Some(chunk) = self.next_chunk()? {
                bytes.extend_from_slice(&chunk);
            }
            parts.push((name, bytes));
        }
        Ok(parts)
    }
}

fn reader(bytes: Vec<u8>, chunk: usize) -> Reader {
    Reader {
        stream: MultipartStream::new(&content_type())
            .expect("the declared content type carries a boundary"),
        bytes,
        chunk,
        position: 0,
        failure: None,
    }
}

#[test]
fn a_streamed_document_yields_every_part_whatever_the_chunk_size() {
    let payload = vec![7_u8; 40_000];
    let document = multipart_document(&[
        ("title", None, None, b"A cover"),
        (
            "file",
            Some("cover.jpg"),
            Some("image/jpeg"),
            payload.as_slice(),
        ),
        ("note", None, None, b""),
    ]);

    // One byte at a time splits the delimiter, the header block, and the
    // CRLF that precedes a boundary across as many chunks as possible.
    for chunk in [1, 2, 3, 7, 64, 8192, usize::MAX] {
        let parts = reader(document.clone(), chunk)
            .read_all()
            .expect("the document parses");
        assert_eq!(parts.len(), 3, "chunk size {chunk}");
        assert_eq!(parts[0], ("title".to_string(), b"A cover".to_vec()));
        assert_eq!(parts[1].0, "file");
        assert_eq!(parts[1].1, payload);
        assert_eq!(parts[2], ("note".to_string(), Vec::new()));
    }
}

#[test]
fn part_metadata_survives_the_streaming_reader() {
    let document = multipart_document(&[("file", Some("cover.jpg"), Some("image/jpeg"), b"body")]);
    let field = reader(document, 5)
        .next_field()
        .expect("the document parses")
        .expect("one part");
    assert_eq!(field.name(), "file");
    assert_eq!(field.file_name(), Some("cover.jpg"));
    assert_eq!(field.content_type(), Some("image/jpeg"));
}

#[test]
fn part_data_that_looks_like_a_boundary_is_still_data() {
    let mut data = Vec::new();
    data.extend_from_slice(b"\r\n--not-the-boundary\r\n");
    data.extend_from_slice(format!("\r\n--{BOUNDARY}x\r\n").as_bytes());
    data.extend_from_slice(format!("\r\n--{BOUNDARY}").as_bytes());
    data.extend_from_slice(b"tail\r\n");
    data.extend_from_slice(b"\r\n-\r\n--\r");
    let document = multipart_document(&[("file", None, None, &data)]);

    for chunk in [1, 4, 17, 8192] {
        let parts = reader(document.clone(), chunk)
            .read_all()
            .expect("the document parses");
        assert_eq!(parts.len(), 1, "chunk size {chunk}");
        assert_eq!(parts[0].1, data, "chunk size {chunk}");
    }
}

#[test]
fn a_large_upload_never_becomes_resident() {
    // Five mebibytes, delivered in the eight-kibibyte chunks a transport uses.
    let payload = vec![9_u8; 5 * 1024 * 1024];
    let document = multipart_document(&[("file", Some("cover.jpg"), Some("image/jpeg"), &payload)]);
    let mut reader = reader(document, 8192);

    let mut bytes = 0_usize;
    let mut peak = 0_usize;
    reader
        .next_field()
        .expect("the document parses")
        .expect("one part");
    while let Some(chunk) = reader.next_chunk().expect("a chunk") {
        bytes += chunk.len();
        peak = peak.max(reader.stream.held_bytes());
    }

    assert_eq!(bytes, payload.len());
    // One transport chunk plus a delimiter of look-ahead, not the upload.
    assert!(
        peak < 64 * 1024,
        "a five-megabyte upload held {peak} buffered bytes"
    );
}

#[test]
fn a_skipped_part_does_not_disturb_the_next_one() {
    let document = multipart_document(&[
        ("file", None, None, &[3_u8; 5000]),
        ("note", None, None, b"kept"),
    ]);
    let mut reader = reader(document, 128);
    let first = reader
        .next_field()
        .expect("the document parses")
        .expect("a first part");
    assert_eq!(first.name(), "file");
    let second = reader
        .next_field()
        .expect("the rest of the document parses")
        .expect("a second part");
    assert_eq!(second.name(), "note");
    let chunk = reader
        .next_chunk()
        .expect("a chunk")
        .expect("the part has data");
    assert_eq!(chunk, b"kept");
}

#[test]
fn a_document_with_no_parts_reads_as_empty() {
    let parts = reader(format!("--{BOUNDARY}--").into_bytes(), 3)
        .read_all()
        .expect("an empty document parses");
    assert!(parts.is_empty());
}

#[test]
fn a_body_that_ends_before_its_closing_boundary_is_a_failure_not_a_short_read() {
    let mut truncated = multipart_document(&[("file", None, None, &[1_u8; 4096])]);
    truncated.truncate(2048);
    let error = reader(truncated, 512)
        .read_all()
        .expect_err("a truncated body cannot succeed");
    assert_eq!(
        error,
        MultipartError::Malformed("multipart part has no closing boundary")
    );
}

#[test]
fn a_producer_failure_mid_body_is_reported_not_swallowed() {
    let mut document = multipart_document(&[("file", None, None, &[1_u8; 4096])]);
    document.truncate(1024);
    let mut failing = reader(document, usize::MAX);
    failing.failure = Some(BodyStreamError::new(
        "upload_timeout",
        "request body stalled past the configured deadline",
    ));

    let error = failing
        .read_all()
        .expect_err("a failed producer cannot succeed");
    let MultipartError::Transport(transport) = &error else {
        panic!("expected a transport failure, got {error:?}");
    };
    assert_eq!(transport.code, "upload_timeout");
    assert_eq!(error.status(), 400);
    assert_eq!(error.code(), "upload_stream_failed");
}

#[test]
fn a_failed_document_cannot_be_resumed() {
    let mut reader = reader(b"not a multipart body at all".to_vec(), 4);
    let first = reader.next_field().expect_err("the body is malformed");
    assert_eq!(
        first,
        MultipartError::Malformed("multipart body does not start with its declared boundary")
    );
    let second = reader.next_field().expect_err("the reader stays failed");
    assert_eq!(
        second,
        MultipartError::Malformed("multipart body already failed to parse")
    );
}

#[test]
fn a_malformed_document_projects_the_buffered_extractors_failure() {
    let failure = MultipartError::Malformed("multipart boundary is malformed")
        .into_failure()
        .expect("the failure projects");
    assert_eq!(failure.status, 422);
    assert_eq!(failure.code, "invalid_multipart");
    assert_eq!(
        failure.message,
        "request body is not valid multipart form data"
    );
    let details: blazingly_json::Value =
        blazingly_json::from_slice(&failure.details.expect("details")).expect("valid JSON");
    let expected: blazingly_json::Value = blazingly_json::from_str(
        "{\"source\":\"multipart\",\"reason\":\"multipart boundary is malformed\"}",
    )
    .expect("valid JSON");
    assert_eq!(details, expected);
}

#[test]
fn a_content_type_without_a_usable_boundary_is_rejected() {
    for content_type in [
        "application/json",
        "multipart/form-data",
        "multipart/form-data; boundary=",
        "multipart/form-data; boundary=\"with space\"",
    ] {
        let error = MultipartStream::new(content_type)
            .err()
            .unwrap_or_else(|| panic!("{content_type} should not carry a boundary"));
        assert_eq!(
            error,
            MultipartError::Malformed("multipart boundary is missing or invalid")
        );
    }
}

#[test]
fn a_document_with_too_many_parts_is_rejected() {
    let empty = Vec::new();
    let parts = (0..=MAX_MULTIPART_PARTS)
        .map(|_| ("field", None, None, empty.as_slice()))
        .collect::<Vec<_>>();
    let error = reader(multipart_document(&parts), 512)
        .read_all()
        .expect_err("the part count is bounded");
    assert_eq!(
        error,
        MultipartError::Malformed("multipart body contains too many parts")
    );
}

#[test]
fn an_oversized_part_header_block_is_rejected() {
    let mut document = format!("--{BOUNDARY}\r\n").into_bytes();
    document.extend_from_slice(b"Content-Disposition: form-data; name=\"file\"\r\n");
    document.extend_from_slice(b"X-Padding: ");
    document.extend_from_slice(&vec![b'p'; 32 * 1024]);
    document.extend_from_slice(b"\r\n\r\ndata\r\n");
    document.extend_from_slice(format!("--{BOUNDARY}--\r\n").as_bytes());

    let error = reader(document, 4096)
        .read_all()
        .expect_err("the header block is bounded");
    assert_eq!(
        error,
        MultipartError::Malformed("multipart part headers exceed the configured limit")
    );
}

#[test]
fn a_field_can_still_be_buffered_deliberately_with_a_limit() {
    let document = multipart_document(&[
        ("title", None, None, "A cover".as_bytes()),
        ("file", Some("c.png"), Some("image/png"), &[4_u8; 300]),
    ]);
    let mut reader = reader(document, 37);
    let mut title = reader
        .next_field()
        .expect("the document parses")
        .expect("a first part");
    reader.collect(&mut title, 64).expect("the text fits");
    assert_eq!(title.text().expect("the text is UTF-8"), "A cover");

    let mut file = reader
        .next_field()
        .expect("the document parses")
        .expect("a second part");
    reader.collect(&mut file, 1024).expect("the upload fits");
    assert_eq!(
        file.into_upload(),
        UploadFile::new("file", vec![4_u8; 300])
            .with_file_name("c.png")
            .with_content_type("image/png")
    );
}

#[test]
fn deliberate_buffering_still_honours_the_limit_it_was_given() {
    let document = multipart_document(&[("file", None, None, &[4_u8; 300])]);
    let mut reader = reader(document, 64);
    let mut field = reader
        .next_field()
        .expect("the document parses")
        .expect("one part");
    let error = reader
        .collect(&mut field, 128)
        .expect_err("the part is too large");
    assert_eq!(error, MultipartError::TooLarge { limit: 128 });
    assert_eq!(error.status(), 413);
}

#[test]
fn a_field_that_is_not_text_is_refused() {
    let document = multipart_document(&[("title", None, None, &[0xff_u8, 0xfe])]);
    let mut reader = reader(document, 16);
    let mut field = reader
        .next_field()
        .expect("the document parses")
        .expect("one part");
    reader.collect(&mut field, 16).expect("the data fits");
    assert_eq!(
        field.text().expect_err("the data is not text"),
        MultipartError::Malformed("multipart text field is not valid UTF-8")
    );
}

#[test]
fn a_waiting_reader_withholds_at_most_a_delimiter_and_four_bytes() {
    let data = vec![b'x'; 10_000];
    let document = multipart_document(&[("file", Some("big.bin"), None, &data)]);
    let opening = document.len() - data.len() - format!("\r\n--{BOUNDARY}--\r\n").len();
    // Cut right before the end of the closing delimiter.
    let fed = &document[..document.len() - 5];
    let mut stream = MultipartStream::new(&content_type()).expect("a declared boundary");
    stream.feed(fed);
    assert!(matches!(
        stream.next_field(),
        Ok(Polled::Ready(Some(_)))
    ));
    let mut delivered = 0;
    while let Ok(Polled::Ready(Some(chunk))) = stream.next_chunk() {
        delivered += chunk.len();
    }
    assert!(matches!(stream.next_chunk(), Ok(Polled::Pending)));
    assert_eq!(delivered, data.len());
    let withheld = fed.len() - opening - delivered;
    assert!(withheld > 0);
    assert!(withheld <= BOUNDARY.len() + 2 + 4);
}

/// A document with one part whose header block has exactly this length.
fn document_with_headers(length: usize) -> Vec<u8> {
    let mut block = b"Content-Disposition: form-data; name=\"f\"\r\nX-Padding: ".to_vec();
    block.resize(length, b'p');
    let mut document = format!("--{BOUNDARY}\r\n").into_bytes();
    document.extend_from_slice(&block);
    document.extend_from_slice(b"\r\n\r\ndata");
    document.extend_from_slice(format!("\r\n--{BOUNDARY}--\r\n").as_bytes());
    document
}

#[test]
fn both_readers_take_the_largest_header_block() {
    let largest = document_with_headers(MAX_MULTIPART_HEADER_BYTES);
    let buffered = parse_multipart(&largest, BOUNDARY).expect("the block fits the limit");
    assert_eq!(buffered[0].headers.name, "f");
    let one_more = document_with_headers(MAX_MULTIPART_HEADER_BYTES + 1);
    let refused = "multipart part headers exceed the configured limit";
    assert_eq!(parse_multipart(&one_more, BOUNDARY), Err(refused));
    for chunk in [1, 2, 3, 5, 1000, usize::MAX] {
        let parts = reader(largest.clone(), chunk)
            .read_all()
            .expect("the block fits the limit");
        assert_eq!(parts, [("f".to_string(), b"data".to_vec())]);
        assert_eq!(
            reader(one_more.clone(), chunk).read_all(),
            Err(MultipartError::Malformed(refused))
        );
    }
}

/// What a body yields to its end or first failure, partial data included.
fn yielded(document: &[u8], chunk: usize) -> (Vec<(String, Vec<u8>)>, Option<MultipartError>) {
    let mut reader = reader(document.to_vec(), chunk);
    let mut parts: Vec<(String, Vec<u8>)> = Vec::new();
    loop {
        match reader.next_field() {
            Ok(None) => return (parts, None),
            Ok(Some(field)) => parts.push((field.name().to_string(), Vec::new())),
            Err(error) => return (parts, Some(error)),
        }
        loop {
            match reader.next_chunk() {
                Ok(None) => break,
                Ok(Some(chunk)) => parts.last_mut().unwrap().1.extend_from_slice(&chunk),
                Err(error) => return (parts, Some(error)),
            }
        }
    }
}

#[test]
fn cutting_a_body_changes_neither_its_parts_nor_its_end() {
    let resembling = format!("a\r\n--{BOUNDARY}x\r\n-\r\n--b");
    let whole = multipart_document(&[
        ("title", None, None, b"A cover"),
        ("file", Some("x.bin"), None, resembling.as_bytes()),
        ("note", None, None, b""),
    ]);
    for length in 0..=whole.len() {
        let body = &whole[..length];
        let expected = yielded(body, usize::MAX);
        for chunk in [1, 2, 3, 7, 40] {
            assert_eq!(yielded(body, chunk), expected, "length {length}, chunk {chunk}");
        }
        match parse_multipart(body, BOUNDARY) {
            Ok(parts) => {
                let parts: Vec<(String, Vec<u8>)> = parts
                    .into_iter()
                    .map(|part| (part.headers.name, part.bytes))
                    .collect();
                assert_eq!(expected, (parts, None), "length {length}");
            }
            Err(_) => assert!(expected.1.is_some(), "length {length}"),
        }
    }
}
