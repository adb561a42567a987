use mockreplay::httpmsg::{
    read_request, read_response, write_request, write_response, Request, Response,
};
use mockreplay::reader::{ReadError, Reader};
use mockreplay::record::{append, exchange, Action, Event, Session};
use mockreplay::recording::{RecordedExchange, Recording};
use mockreplay::replay::handle_one;

/// Runs a session in which the client and the real server send what is given,
/// some bytes at a time. Gives what each of them was sent, and what was
/// recorded.
fn run(client: &[u8], upstream: &[u8], at_a_time: usize) -> (Vec<u8>, Vec<u8>, Recording) {
    let mut recording = Recording::default();
    let (mut to_client, mut to_upstream) = (Vec::new(), Vec::new());
    let (mut client_chunks, mut upstream_chunks) =
        (client.chunks(at_a_time), upstream.chunks(at_a_time));
    let (mut session, mut action) = Session::start();
    loop {
        let event = match action {
            Action::ReadClient => Event::Received(client_chunks.next().unwrap_or(&[]).to_vec()),
            Action::ReadUpstream => Event::Received(upstream_chunks.next().unwrap_or(&[]).to_vec()),
            Action::ConnectUpstream => Event::Completed,
            Action::SendUpstream(bytes) => {
                to_upstream = bytes;
                Event::Completed
            }
            Action::SendClient(bytes) => {
                assert!(recording.entries.is_empty());
                to_client = bytes;
                Event::Completed
            }
            Action::Record(entry) => {
                append(&mut recording, entry);
                Event::Completed
            }
            Action::RejectRequest(e) => panic!("no request: {:?}", e),
            Action::RejectResponse(e) => panic!("no response: {:?}", e),
            Action::Finish => return (to_client, to_upstream, recording),
        };
        let (next, then) = session.step(event);
        session = next;
        action = then;
    }
}

fn post_users() -> Request {
    Request {
        method: "POST".to_string(),
        path: "/users".to_string(),
        headers: vec![("Host".to_string(), "example.test".to_string())],
        body: b"{\"name\":\"ada\"}".to_vec(),
    }
}

fn created() -> Response {
    Response {
        status: 201,
        headers: vec![("Content-Type".to_string(), "application/json".to_string())],
        body: b"{\"id\":42}".to_vec(),
    }
}

#[test]
fn forwards_to_upstream_and_records_the_real_exchange() {
    let (mut sent, mut answered) = (Vec::new(), Vec::new());
    write_request(&mut sent, &post_users());
    write_response(&mut answered, &created());

    let (to_client, to_upstream, saved) = run(&sent, &answered, 4096);
    let forwarded = read_request(&mut Reader::new(&to_upstream)).unwrap();
    assert_eq!(forwarded.method, "POST");
    assert_eq!(forwarded.path, "/users");
    assert_eq!(forwarded.body, b"{\"name\":\"ada\"}");

    let resp = read_response(&mut Reader::new(&to_client)).unwrap();
    assert_eq!(resp.status, 201);
    assert_eq!(resp.body, b"{\"id\":42}");

    assert_eq!(saved.entries.len(), 1);
    assert_eq!(saved.entries[0].method, "POST");
    assert_eq!(saved.entries[0].path, "/users");
    assert_eq!(saved.entries[0].status, 201);
    assert_eq!(saved.entries[0].response_body, b"{\"id\":42}");
}

#[test]
fn chunks_do_not_matter_to_a_session() {
    let client = b"GET /a HTTP/1.1\r\nhost: x\r\n\r\n";
    let upstream = b"HTTP/1.0 200 OK\r\nContent-Type: text/plain\r\n\r\nuntil the end";
    let whole = run(client, upstream, 4096);
    assert_eq!(whole.2.entries[0].response_body, b"until the end");
    for at_a_time in [1, 2, 7, 20] {
        assert_eq!(run(client, upstream, at_a_time), whole);
    }
}

#[test]
fn a_recorded_exchange_replays_byte_for_byte() {
    let client = b"POST /users HTTP/1.1\r\ncontent-length: 3\r\n\r\nada";
    let upstream = b"HTTP/1.1 599 Odd\r\n A : b\r\nconnection: keep-alive\r\n\r\n\xff\x00done";
    let (to_client, _, recording) = run(client, upstream, 5);
    assert_eq!(handle_one(&recording, &mut Reader::new(client)).unwrap(), to_client);
}

#[test]
fn an_exchange_keeps_what_was_sent_and_answered() {
    assert_eq!(
        exchange(post_users(), created()),
        RecordedExchange {
            method: "POST".to_string(),
            path: "/users".to_string(),
            request_body: b"{\"name\":\"ada\"}".to_vec(),
            status: 201,
            headers: vec![("Content-Type".to_string(), "application/json".to_string())],
            response_body: b"{\"id\":42}".to_vec(),
        }
    );
}

#[test]
fn what_is_no_request_is_rejected() {
    let (session, _) = Session::start();
    let (session, action) = session.step(Event::Received(b"GET \xff\r\n".to_vec()));
    assert!(matches!(action, Action::RejectRequest(ReadError::InvalidUtf8)));
    assert!(matches!(session, Session::Finished));
}

#[test]
fn what_is_no_response_is_rejected_and_not_recorded() {
    let (session, _) = Session::start();
    let (session, action) = session.step(Event::Received(b"GET / HTTP/1.1\r\n\r\n".to_vec()));
    assert!(matches!(action, Action::ConnectUpstream));
    let (session, action) = session.step(Event::Completed);
    assert!(matches!(action, Action::SendUpstream(_)));
    let (session, action) = session.step(Event::Completed);
    assert!(matches!(action, Action::ReadUpstream));
    let cut_short = b"HTTP/1.1 200 OK\r\ncontent-length: 9\r\n\r\nabc".to_vec();
    let (session, action) = session.step(Event::Received(cut_short));
    assert!(matches!(action, Action::ReadUpstream));
    let (session, action) = session.step(Event::Received(vec![]));
    assert!(matches!(action, Action::RejectResponse(ReadError::UnexpectedEof)));
    let (_, action) = session.step(Event::Completed);
    assert!(matches!(action, Action::Finish));
}

#[test]
fn an_event_out_of_turn_ends_the_session() {
    let (session, _) = Session::start();
    let (session, action) = session.step(Event::Completed);
    assert!(matches!(action, Action::Finish));
    assert!(matches!(session, Session::Finished));
}
