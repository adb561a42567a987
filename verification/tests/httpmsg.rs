use mockreplay::httpmsg::{
    header_value, read_request, read_response, reason_phrase, write_request, write_response,
    Request, Response,
};
use mockreplay::reader::{ReadError, Reader};

#[test]
fn round_trips_a_request_with_a_body() {
    let req = Request {
        method: "POST".to_string(),
        path: "/users".to_string(),
        headers: vec![("Content-Type".to_string(), "application/json".to_string())],
        body: b"{\"name\":\"ada\"}".to_vec(),
    };
    let mut buf = Vec::new();
    write_request(&mut buf, &req);

    let mut reader = Reader::new(&buf[..]);
    let parsed = read_request(&mut reader).unwrap();
    assert_eq!(parsed.method, "POST");
    assert_eq!(parsed.path, "/users");
    assert_eq!(parsed.body, b"{\"name\":\"ada\"}");
    // The length that write_request sets is what makes the body come back.
    assert_eq!(header_value(&parsed.headers, "content-length"), Some("14"));
}

#[test]
fn write_request_ignores_a_caller_supplied_wrong_content_length() {
    let req = Request {
        method: "POST".to_string(),
        path: "/x".to_string(),
        headers: vec![("Content-Length".to_string(), "999".to_string())],
        body: b"short".to_vec(),
    };
    let mut buf = Vec::new();
    write_request(&mut buf, &req);
    let mut reader = Reader::new(&buf[..]);
    let parsed = read_request(&mut reader).unwrap();
    assert_eq!(parsed.body, b"short");
    assert_eq!(header_value(&parsed.headers, "content-length"), Some("5"));
}

#[test]
fn request_with_no_body_reads_back_empty() {
    let req = Request {
        method: "GET".to_string(),
        path: "/health".to_string(),
        headers: vec![],
        body: vec![],
    };
    let mut buf = Vec::new();
    write_request(&mut buf, &req);
    let mut reader = Reader::new(&buf[..]);
    let parsed = read_request(&mut reader).unwrap();
    assert!(parsed.body.is_empty());
}

#[test]
fn response_with_no_content_length_reads_body_until_eof() {
    // Raw bytes, since write_response always adds the header itself.
    let raw = b"HTTP/1.1 200 OK\r\nContent-Type: text/plain\r\n\r\nhello, no length header here";
    let mut reader = Reader::new(&raw[..]);
    let parsed = read_response(&mut reader).unwrap();
    assert_eq!(parsed.status, 200);
    assert_eq!(parsed.body, b"hello, no length header here");
}

#[test]
fn round_trips_a_response_and_always_sets_a_correct_content_length() {
    let resp = Response {
        status: 200,
        headers: vec![
            ("Content-Type".to_string(), "text/plain".to_string()),
            ("Content-Length".to_string(), "999".to_string()),
        ],
        body: b"hello world".to_vec(),
    };
    let mut buf = Vec::new();
    write_response(&mut buf, &resp);

    let mut reader = Reader::new(&buf[..]);
    let parsed = read_response(&mut reader).unwrap();
    assert_eq!(parsed.status, 200);
    assert_eq!(parsed.body, b"hello world");
    // The stale "999" must not survive: the real length is sent and read back.
    assert_eq!(header_value(&parsed.headers, "content-length"), Some("11"));
}

#[test]
fn unknown_status_code_still_produces_a_parseable_response() {
    let resp = Response {
        status: 599,
        headers: vec![],
        body: vec![],
    };
    let mut buf = Vec::new();
    write_response(&mut buf, &resp);
    let mut reader = Reader::new(&buf[..]);
    assert_eq!(read_response(&mut reader).unwrap().status, 599);
}

#[test]
fn header_lookup_is_case_insensitive() {
    let headers = vec![("Content-Type".to_string(), "text/plain".to_string())];
    assert_eq!(header_value(&headers, "content-type"), Some("text/plain"));
    assert_eq!(header_value(&headers, "CONTENT-TYPE"), Some("text/plain"));
}

fn request_of(raw: &[u8]) -> Request {
    read_request(&mut Reader::new(raw)).unwrap()
}

fn response_of(raw: &[u8]) -> Response {
    read_response(&mut Reader::new(raw)).unwrap()
}

fn header(name: &str, value: &str) -> (String, String) {
    (name.to_string(), value.to_string())
}

#[test]
fn a_request_is_written_byte_for_byte() {
    let req = Request {
        method: "PUT".to_string(),
        path: "/a?b=c".to_string(),
        headers: vec![
            header("Host", "example.test"),
            header("CONTENT-LENGTH", "7"),
            header("X-Empty", ""),
        ],
        body: b"0123456789ab".to_vec(),
    };
    let mut buf = b"before".to_vec();
    write_request(&mut buf, &req);
    assert_eq!(
        buf,
        b"beforePUT /a?b=c HTTP/1.1\r\nHost: example.test\r\nX-Empty: \r\ncontent-length: 12\r\n\r\n0123456789ab"
    );
}

#[test]
fn a_response_is_written_byte_for_byte() {
    let resp = Response {
        status: 404,
        headers: vec![
            header("Transfer-Encoding", "chunked"),
            header("X-Name", "gr\u{fc}n"),
            header("connection", "keep-alive"),
            header("Content-length", "1"),
        ],
        body: b"no".to_vec(),
    };
    let mut buf = Vec::new();
    write_response(&mut buf, &resp);
    assert_eq!(
        buf,
        "HTTP/1.1 404 Not Found\r\nX-Name: gr\u{fc}n\r\ncontent-length: 2\r\nconnection: close\r\n\r\nno"
            .as_bytes()
    );
}

#[test]
fn every_known_status_has_its_phrase() {
    let known = [
        (200, "OK"),
        (201, "Created"),
        (204, "No Content"),
        (301, "Moved Permanently"),
        (302, "Found"),
        (304, "Not Modified"),
        (400, "Bad Request"),
        (401, "Unauthorized"),
        (403, "Forbidden"),
        (404, "Not Found"),
        (500, "Internal Server Error"),
        (502, "Bad Gateway"),
        (503, "Service Unavailable"),
        (0, "Unknown"),
        (418, "Unknown"),
        (65535, "Unknown"),
    ];
    for (status, phrase) in known {
        assert_eq!(reason_phrase(status), phrase);
    }
}

#[test]
fn every_status_reads_back() {
    for status in [0u16, 7, 99, 100, 200, 999, 1000, 65535] {
        let resp = Response { status, headers: vec![], body: b"x".to_vec() };
        let mut buf = Vec::new();
        write_response(&mut buf, &resp);
        let back = response_of(&buf);
        assert_eq!(back.status, status);
        assert_eq!(back.body, b"x");
    }
}

#[test]
fn a_request_reads_back_with_its_headers() {
    let req = Request {
        method: "POST".to_string(),
        path: "/\u{e9}t\u{e9}".to_string(),
        headers: vec![header("A", "b: c"), header("Content-Length", "3"), header("", "d")],
        body: b"\r\n\r\n".to_vec(),
    };
    let mut buf = Vec::new();
    write_request(&mut buf, &req);
    let back = request_of(&buf);
    assert_eq!(back.method, req.method);
    assert_eq!(back.path, req.path);
    assert_eq!(back.headers, vec![header("A", "b: c"), header("", "d"), header("content-length", "4")]);
    assert_eq!(back.body, req.body);
}

#[test]
fn stale_framing_does_not_change_what_is_written() {
    let plain = Response { status: 200, headers: vec![header("A", "b")], body: b"c".to_vec() };
    let stale = Response {
        status: 200,
        headers: vec![header("Connection", "x"), header("A", "b"), header("content-LENGTH", "9")],
        body: b"c".to_vec(),
    };
    let (mut one, mut two) = (Vec::new(), Vec::new());
    write_response(&mut one, &plain);
    write_response(&mut two, &stale);
    assert_eq!(one, two);
}

#[test]
fn what_follows_a_message_is_left_unread() {
    let mut reader = Reader::new(b"GET /a HTTP/1.1\r\ncontent-length: 2\r\n\r\nhiGET /b HTTP/1.1\r\n\r\n");
    assert_eq!(read_request(&mut reader).unwrap().body, b"hi");
    assert_eq!(reader.unread, b"GET /b HTTP/1.1\r\n\r\n");
    let next = read_request(&mut reader).unwrap();
    assert_eq!(next.path, "/b");
    assert!(next.body.is_empty());
    assert!(reader.unread.is_empty());
}

#[test]
fn missing_parts_of_the_request_line_have_defaults() {
    let blank = request_of(b"\r\n\r\n");
    assert_eq!(blank.method, "");
    assert_eq!(blank.path, "/");
    let bare = request_of(b"GET");
    assert_eq!(bare.method, "GET");
    assert_eq!(bare.path, "/");
    let nothing = request_of(b"");
    assert_eq!(nothing.method, "");
    assert_eq!(nothing.path, "/");
    assert!(nothing.headers.is_empty());
    let spaced = request_of(b" \t GET\x0b /x\xc2\xa0HTTP/1.1\n\n");
    assert_eq!(spaced.method, "GET");
    assert_eq!(spaced.path, "/x");
}

#[test]
fn a_status_that_is_no_number_is_zero() {
    assert_eq!(response_of(b"HTTP/1.1 abc OK\r\n\r\n").status, 0);
    assert_eq!(response_of(b"HTTP/1.1\r\n\r\n").status, 0);
    assert_eq!(response_of(b"HTTP/1.1 65536 X\r\n\r\n").status, 0);
    assert_eq!(response_of(b"HTTP/1.1 -1 X\r\n\r\n").status, 0);
    assert_eq!(response_of(b"HTTP/1.1 +200 X\r\n\r\n").status, 200);
    assert_eq!(response_of(b"HTTP/1.1 00200 X\r\n\r\n").status, 200);
}

#[test]
fn header_lines_are_trimmed_and_lines_without_a_colon_skipped() {
    let req = request_of(b"GET / HTTP/1.1\r\n  Name \t: \xe2\x80\x83va:lue  \r\nno colon here\r\nb:\n\r\n");
    assert_eq!(req.headers, vec![header("Name", "va:lue"), header("b", "")]);
    assert_eq!(header_value(&req.headers, "NAME"), Some("va:lue"));
    assert_eq!(header_value(&req.headers, "missing"), None);
}

#[test]
fn the_first_header_of_a_name_counts() {
    let headers = vec![header("A", "1"), header("a", "2")];
    assert_eq!(header_value(&headers, "a"), Some("1"));
    let req = request_of(b"GET / HTTP/1.1\r\nContent-Length: 1\r\ncontent-length: 2\r\n\r\nxyz");
    assert_eq!(req.body, b"x");
}

#[test]
fn a_length_that_is_no_number_is_as_good_as_none() {
    let req = request_of(b"GET / HTTP/1.1\r\ncontent-length: ten\r\n\r\nabc");
    assert!(req.body.is_empty());
    let resp = response_of(b"HTTP/1.1 200 OK\r\ncontent-length: 1 2\r\n\r\nabc");
    assert_eq!(resp.body, b"abc");
    let resp = response_of(b"HTTP/1.1 200 OK\r\ncontent-length: 99999999999999999999999\r\n\r\nabc");
    assert_eq!(resp.body, b"abc");
}

#[test]
fn a_body_cut_short_is_an_error() {
    let raw = b"GET / HTTP/1.1\r\ncontent-length: 4\r\n\r\nabc";
    let mut reader = Reader::new(raw);
    assert_eq!(read_request(&mut reader).unwrap_err(), ReadError::UnexpectedEof);
    assert_eq!(reader.unread, raw);
    let raw = b"HTTP/1.1 200 OK\r\ncontent-length: 4\r\n\r\nabc";
    assert_eq!(read_response(&mut Reader::new(raw)).unwrap_err(), ReadError::UnexpectedEof);
}

#[test]
fn a_head_that_is_not_utf8_is_an_error() {
    let raw = b"GET / HTTP/1.1\r\nname: \xff\r\n\r\n";
    assert_eq!(read_request(&mut Reader::new(raw)).unwrap_err(), ReadError::InvalidUtf8);
    let raw = b"HTTP/1.1 200 \xc3(\r\n\r\n";
    assert_eq!(read_response(&mut Reader::new(raw)).unwrap_err(), ReadError::InvalidUtf8);
    let body = b"HTTP/1.1 200 OK\r\n\r\n\xff\xfe";
    assert_eq!(response_of(body).body, b"\xff\xfe");
}

#[test]
fn a_length_that_no_buffer_can_have_is_an_error() {
    let raw = format!("GET / HTTP/1.1\r\ncontent-length: {}\r\n\r\n", usize::MAX);
    let mut reader = Reader::open();
    reader.feed(raw.as_bytes());
    assert_eq!(read_request(&mut reader).unwrap_err(), ReadError::BodyTooLarge);
}

#[test]
fn a_request_can_arrive_byte_by_byte() {
    let raw = b"POST /x HTTP/1.1\r\nA: b\r\nContent-Length: 3\r\n\r\nabcd";
    let mut reader = Reader::open();
    let mut tries = 0;
    let req = loop {
        reader.feed(&raw[tries..tries + 1]);
        tries += 1;
        match read_request(&mut reader) {
            Ok(req) => break req,
            Err(e) => assert_eq!(e, ReadError::Incomplete),
        }
    };
    assert_eq!(tries, raw.len() - 1);
    assert_eq!(req, request_of(raw));
    assert_eq!(req.body, b"abc");
}

#[test]
fn a_response_without_a_length_waits_for_the_end() {
    let mut reader = Reader::open();
    reader.feed(b"HTTP/1.0 200 OK\r\n\r\nab");
    assert_eq!(read_response(&mut reader).unwrap_err(), ReadError::Incomplete);
    reader.feed(b"cd");
    assert_eq!(read_response(&mut reader).unwrap_err(), ReadError::Incomplete);
    reader.feed(b"");
    assert!(reader.closed);
    assert_eq!(read_response(&mut reader).unwrap().body, b"abcd");
}

#[test]
fn a_message_that_was_read_can_be_passed_on() {
    let raw = b"HTTP/1.1 202 Accepted\r\n A : b \r\nTransfer-Encoding: identity\r\n\r\nbody";
    let first = response_of(raw);
    let mut buf = Vec::new();
    write_response(&mut buf, &first);
    let second = response_of(&buf);
    assert_eq!(second.status, 202);
    assert_eq!(second.body, b"body");
    assert_eq!(
        second.headers,
        vec![header("A", "b"), header("content-length", "4"), header("connection", "close")]
    );
}

#[test]
fn a_body_survives_headers_that_are_read_otherwise() {
    let req = Request {
        method: "POST".to_string(),
        path: "/x".to_string(),
        headers: vec![header(" A ", " b\t"), header("C:d", "e"), header("F", "g\r")],
        body: b"abc".to_vec(),
    };
    let mut buf = Vec::new();
    write_request(&mut buf, &req);
    let back = request_of(&buf);
    assert_eq!(back.body, b"abc");
    assert_eq!(
        back.headers,
        vec![header("A", "b"), header("C", "d: e"), header("F", "g"), header("content-length", "3")]
    );
}

#[test]
fn a_length_hidden_by_white_space_is_not_replaced() {
    let req = Request {
        method: "POST".to_string(),
        path: "/x".to_string(),
        headers: vec![header(" Content-Length", "1")],
        body: b"abc".to_vec(),
    };
    let mut buf = Vec::new();
    write_request(&mut buf, &req);
    assert_eq!(request_of(&buf).body, b"a");
}

#[test]
fn a_method_of_two_words_does_not_read_back() {
    let req = Request {
        method: "GET IT".to_string(),
        path: "/x".to_string(),
        headers: vec![],
        body: vec![],
    };
    let mut buf = Vec::new();
    write_request(&mut buf, &req);
    let back = request_of(&buf);
    assert_eq!(back.method, "GET");
    assert_eq!(back.path, "IT");
}
