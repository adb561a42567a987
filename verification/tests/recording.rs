use mockreplay::record::{append, load_or_default};
use mockreplay::recording::{find_match, RecordedExchange, Recording};

fn exchange(method: &str, path: &str, body: &[u8], response_body: &str) -> RecordedExchange {
    RecordedExchange {
        method: method.to_string(),
        path: path.to_string(),
        request_body: body.to_vec(),
        status: 200,
        headers: vec![],
        response_body: response_body.as_bytes().to_vec(),
    }
}

#[test]
fn matches_by_method_and_path_when_bodies_are_empty() {
    let recording = Recording {
        entries: vec![exchange("GET", "/users", b"", "user list")],
    };
    let found = find_match(&recording, "GET", "/users", b"").unwrap();
    assert_eq!(found.response_body, b"user list");
}

#[test]
fn distinguishes_two_requests_to_the_same_path_by_body() {
    let recording = Recording {
        entries: vec![
            exchange("POST", "/users", br#"{"name":"ada"}"#, "created ada"),
            exchange("POST", "/users", br#"{"name":"grace"}"#, "created grace"),
        ],
    };
    let ada = find_match(&recording, "POST", "/users", br#"{"name":"ada"}"#).unwrap();
    assert_eq!(ada.response_body, b"created ada");
    let grace = find_match(&recording, "POST", "/users", br#"{"name":"grace"}"#).unwrap();
    assert_eq!(grace.response_body, b"created grace");
}

#[test]
fn falls_back_to_method_and_path_when_the_exact_body_wasnt_recorded() {
    let recording = Recording {
        entries: vec![exchange(
            "POST",
            "/users",
            br#"{"name":"ada"}"#,
            "created ada",
        )],
    };
    // A body that was not recorded: method and path decide.
    let found = find_match(&recording, "POST", "/users", br#"{"name":"someone else"}"#);
    assert!(found.is_some());
}

#[test]
fn no_match_for_an_unrecorded_path() {
    let recording = Recording {
        entries: vec![exchange("GET", "/users", b"", "user list")],
    };
    assert!(find_match(&recording, "GET", "/orders", b"").is_none());
}

#[test]
fn the_first_exact_match_comes_before_an_earlier_partial_one() {
    let recording = Recording {
        entries: vec![
            exchange("POST", "/a", b"1", "first"),
            exchange("POST", "/a", b"2", "second"),
            exchange("POST", "/a", b"2", "third"),
            exchange("GET", "/a", b"2", "other"),
        ],
    };
    assert_eq!(find_match(&recording, "POST", "/a", b"2").unwrap().response_body, b"second");
    assert_eq!(find_match(&recording, "POST", "/a", b"3").unwrap().response_body, b"first");
    assert_eq!(find_match(&recording, "GET", "/a", b"1").unwrap().response_body, b"other");
    assert!(find_match(&recording, "post", "/a", b"1").is_none());
    assert!(find_match(&Recording::default(), "GET", "/", b"").is_none());
}

#[test]
fn recording_an_exchange_keeps_exact_matches_and_other_targets() {
    let mut recording = Recording {
        entries: vec![exchange("GET", "/a", b"", "a"), exchange("POST", "/b", b"x", "b")],
    };
    append(&mut recording, exchange("GET", "/a", b"", "newer a"));
    append(&mut recording, exchange("POST", "/c", b"", "c"));
    assert_eq!(recording.entries.len(), 4);
    assert_eq!(find_match(&recording, "GET", "/a", b"").unwrap().response_body, b"a");
    assert_eq!(find_match(&recording, "POST", "/b", b"y").unwrap().response_body, b"b");
    assert_eq!(find_match(&recording, "POST", "/c", b"").unwrap().response_body, b"c");
}

#[test]
fn a_recording_that_cannot_be_loaded_starts_empty() {
    assert!(load_or_default(None).entries.is_empty());
    let loaded = Recording {
        entries: vec![exchange("GET", "/a", b"", "a")],
    };
    assert_eq!(load_or_default(Some(loaded.clone())), loaded);
}
