use mockreplay::httpmsg::{header_value, read_response, write_request, Request, Response};
use mockreplay::reader::{ReadError, Reader};
use mockreplay::recording::{RecordedExchange, Recording};
use mockreplay::replay::{handle_one, respond};

fn send_request(recording: &Recording, method: &str, path: &str, body: &[u8]) -> Response {
    let req = Request {
        method: method.to_string(),
        path: path.to_string(),
        headers: vec![],
        body: body.to_vec(),
    };
    let mut sent = Vec::new();
    write_request(&mut sent, &req);
    let answer = handle_one(recording, &mut Reader::new(&sent)).unwrap();
    read_response(&mut Reader::new(&answer)).unwrap()
}

fn echo(body: &[u8], response_body: &[u8]) -> RecordedExchange {
    RecordedExchange {
        method: "POST".to_string(),
        path: "/echo".to_string(),
        request_body: body.to_vec(),
        status: 200,
        headers: vec![],
        response_body: response_body.to_vec(),
    }
}

#[test]
fn replays_a_recorded_response_exactly() {
    let recording = Recording {
        entries: vec![RecordedExchange {
            method: "GET".to_string(),
            path: "/health".to_string(),
            request_body: vec![],
            status: 200,
            headers: vec![("Content-Type".to_string(), "application/json".to_string())],
            response_body: b"{\"status\":\"ok\"}".to_vec(),
        }],
    };

    let resp = send_request(&recording, "GET", "/health", b"");
    assert_eq!(resp.status, 200);
    assert_eq!(resp.body, b"{\"status\":\"ok\"}");
    assert_eq!(header_value(&resp.headers, "content-type"), Some("application/json"));
}

#[test]
fn unrecorded_request_gets_a_404_naming_what_was_missing() {
    let resp = send_request(&Recording::default(), "GET", "/nonexistent", b"");
    assert_eq!(resp.status, 404);
    assert!(String::from_utf8_lossy(&resp.body).contains("/nonexistent"));
    assert_eq!(resp.body, b"mockreplay: no recorded exchange for GET /nonexistent");
    assert_eq!(header_value(&resp.headers, "content-type"), Some("text/plain"));
}

#[test]
fn distinguishes_requests_by_body_when_replaying() {
    let recording = Recording {
        entries: vec![echo(b"a", b"got a"), echo(b"b", b"got b")],
    };

    assert_eq!(send_request(&recording, "POST", "/echo", b"a").body, b"got a");
    assert_eq!(send_request(&recording, "POST", "/echo", b"b").body, b"got b");
}

#[test]
fn headers_do_not_decide_the_answer() {
    let recording = Recording {
        entries: vec![echo(b"a", b"got a")],
    };
    let mut req = Request {
        method: "POST".to_string(),
        path: "/echo".to_string(),
        headers: vec![],
        body: b"a".to_vec(),
    };
    let plain = respond(&recording, &req);
    req.headers = vec![("Accept".to_string(), "*/*".to_string())];
    assert_eq!(respond(&recording, &req), plain);
    assert_eq!(plain.body, b"got a");
}

#[test]
fn an_unfinished_request_is_not_answered_yet() {
    let recording = Recording {
        entries: vec![echo(b"a", b"got a")],
    };
    let mut reader = Reader::open();
    reader.feed(b"POST /echo HTTP/1.1\r\ncontent-length: 1\r\n\r\n");
    assert_eq!(handle_one(&recording, &mut reader).unwrap_err(), ReadError::Incomplete);
    reader.feed(b"a");
    assert_eq!(
        handle_one(&recording, &mut reader).unwrap(),
        b"HTTP/1.1 200 OK\r\ncontent-length: 5\r\nconnection: close\r\n\r\ngot a"
    );
}
