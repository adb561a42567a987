//! Answering requests from a recording alone.
use vstd::prelude::*;
use vstd::string::*;
use vstd::utf8::*;

use crate::httpmsg::{
    encode_response, read_request, request_from, response_from, write_response, Request,
    RequestModel, Response, ResponseModel,
};
use crate::passing_on::lemma_kept_responses_fit;
use crate::reader::{ReadError, Reader};
use crate::record::exchange_of;
use crate::recording::{
    exact_match, find_match, law_exact_match_is_kept, law_match_is_by_method_path_and_body,
    law_match_prefers_the_exact_request, law_recorded_exchange_is_found, match_position,
    same_request, same_target, ExchangeModel, Recording,
};
use crate::round_trip::{all_fit_lines, is_word, law_response_round_trip, lemma_word_fits};
use crate::search::lemma_none_where;
use crate::utf8_text::{lemma_encode_concat, push_text};

verus! {

/// The response that was recorded.
pub open spec fn recorded_response(e: ExchangeModel) -> ResponseModel {
    ResponseModel { status: e.status, headers: e.headers, body: e.response_body }
}

/// The answer to a request that nothing was recorded for: a `404` that names
/// its method and path.
pub open spec fn not_recorded(method: Seq<char>, path: Seq<char>) -> ResponseModel {
    ResponseModel {
        status: 404,
        headers: seq![("Content-Type"@, "text/plain"@)],
        body: encode_utf8("mockreplay: no recorded exchange for "@ + method + " "@ + path),
    }
}

/// The answer to a request.
pub open spec fn answer(entries: Seq<ExchangeModel>, request: RequestModel) -> ResponseModel {
    match match_position(entries, request.method, request.path, request.body) {
        Some(i) => recorded_response(entries[i]),
        None => not_recorded(request.method, request.path),
    }
}

/// A copy of `headers`.
fn copy_headers(headers: &Vec<(String, String)>) -> (r: Vec<(String, String)>)
    ensures
        r.deep_view() == headers.deep_view(),
{
    let mut r: Vec<(String, String)> = Vec::new();
    let mut i: usize = 0;
    while i < headers.len()
        invariant
            i <= headers@.len(),
            r@.len() == i,
            forall|j: int|
                0 <= j < i ==> (#[trigger] r@[j]).0@ == headers@[j].0@ && r@[j].1@
                    == headers@[j].1@,
        decreases headers.len() - i,
    {
        r.push((headers[i].0.clone(), headers[i].1.clone()));
        i = i + 1;
    }
    assert(r.deep_view() =~= headers.deep_view());
    r
}

/// The answer to a request: the recorded response of the exchange that matches
/// it, or a `404` that names the method and path that were not found.
pub fn respond(recording: &Recording, request: &Request) -> (r: Response)
    ensures
        r@ == answer(recording@, request@),
{
    match find_match(
        recording,
        request.method.as_str(),
        request.path.as_str(),
        request.body.as_slice(),
    ) {
        Some(entry) => {
            let r = Response {
                status: entry.status,
                headers: copy_headers(&entry.headers),
                body: entry.response_body.clone(),
            };
            assert(r.body@ =~= entry.response_body@);
            r
        },
        None => {
            let mut body: Vec<u8> = Vec::new();
            push_text(&mut body, "mockreplay: no recorded exchange for ");
            push_text(&mut body, request.method.as_str());
            push_text(&mut body, " ");
            push_text(&mut body, request.path.as_str());
            let mut headers: Vec<(String, String)> = Vec::new();
            headers.push(("Content-Type".to_owned(), "text/plain".to_owned()));
            proof {
                let intro = "mockreplay: no recorded exchange for "@;
                lemma_encode_concat(intro, request.method@);
                lemma_encode_concat(intro + request.method@, " "@);
                lemma_encode_concat(intro + request.method@ + " "@, request.path@);
                assert(body@ =~= not_recorded(request.method@, request.path@).body);
                assert(headers.deep_view() =~= seq![("Content-Type"@, "text/plain"@)]);
            }
            Response { status: 404, headers, body }
        },
    }
}

/// Reads a request from what has arrived, and gives the bytes to send back.
pub fn handle_one(recording: &Recording, reader: &mut Reader) -> (r: Result<Vec<u8>, ReadError>)
    ensures
        final(reader).closed == old(reader).closed,
        match request_from(old(reader).unread@, old(reader).closed) {
            Ok((request, rest)) => r matches Ok(bytes) && bytes@ == encode_response(
                answer(recording@, request),
            ) && final(reader).unread@ == rest,
            Err(e) => r matches Err(x) && x == e && final(reader).unread@ == old(reader).unread@,
        },
{
    match read_request(reader) {
        Ok(request) => {
            let response = respond(recording, &request);
            let mut bytes: Vec<u8> = Vec::new();
            write_response(&mut bytes, &response);
            assert(bytes@ =~= encode_response(response@));
            Ok(bytes)
        },
        Err(e) => Err(e),
    }
}

/// A request is answered by its method, path and body alone.
pub proof fn law_headers_do_not_matter(
    entries: Seq<ExchangeModel>,
    a: RequestModel,
    b: RequestModel,
)
    requires
        a.method == b.method,
        a.path == b.path,
        a.body == b.body,
    ensures
        answer(entries, a) == answer(entries, b),
{
}

/// A request gets the status, the headers and the body of the first exchange
/// recorded for its method, path and body. Where there is none, it gets those of
/// the first exchange recorded for its method and path.
pub proof fn law_answer_is_the_first_recorded(
    entries: Seq<ExchangeModel>,
    request: RequestModel,
    i: int,
)
    requires
        0 <= i < entries.len(),
        entries[i].method == request.method,
        entries[i].path == request.path,
        if entries[i].request_body == request.body {
            forall|j: int|
                0 <= j < i && (#[trigger] entries[j]).method == request.method && entries[j].path
                    == request.path ==> entries[j].request_body != request.body
        } else {
            &&& forall|j: int|
                0 <= j < i && (#[trigger] entries[j]).method == request.method ==> entries[j].path
                    != request.path
            &&& forall|j: int|
                0 <= j < entries.len() && (#[trigger] entries[j]).method == request.method
                    && entries[j].path == request.path ==> entries[j].request_body != request.body
        },
    ensures
        answer(entries, request).status == entries[i].status,
        answer(entries, request).headers == entries[i].headers,
        answer(entries, request).body == entries[i].response_body,
{
    law_match_is_by_method_path_and_body(entries, request.method, request.path, request.body);
    let found = match_position(entries, request.method, request.path, request.body);
    assert(entries[i] == entries[i]);
    let k = found->0;
    assert(entries[k] == entries[k]);
}

/// A request for a method and path that no exchange has gets a `404` in plain
/// text that names both.
pub proof fn law_answer_to_the_unrecorded(entries: Seq<ExchangeModel>, request: RequestModel)
    requires
        forall|j: int|
            0 <= j < entries.len() && (#[trigger] entries[j]).method == request.method
                ==> entries[j].path != request.path,
    ensures
        answer(entries, request).status == 404,
        answer(entries, request).headers == seq![("Content-Type"@, "text/plain"@)],
        answer(entries, request).body == encode_utf8(
            "mockreplay: no recorded exchange for "@ + request.method + " "@ + request.path,
        ),
{
    law_match_is_by_method_path_and_body(entries, request.method, request.path, request.body);
}

/// A request whose method and path were recorded gets a response that was
/// recorded for them.
pub proof fn law_recorded_target_is_answered(
    entries: Seq<ExchangeModel>,
    request: RequestModel,
    i: int,
)
    requires
        0 <= i < entries.len(),
        same_target(entries[i], request.method, request.path),
    ensures
        exists|k: int|
            0 <= k < entries.len() && same_target(
                #[trigger] entries[k],
                request.method,
                request.path,
            ) && answer(entries, request) == recorded_response(entries[k]),
{
    law_match_prefers_the_exact_request(entries, request.method, request.path, request.body);
    match match_position(entries, request.method, request.path, request.body) {
        Some(k) => {
            assert(same_target(entries[k], request.method, request.path));
        },
        None => {
            assert(!same_target(entries[i], request.method, request.path));
        },
    }
}

/// A request whose method and path were not recorded gets a `404` whose body
/// ends in the method and the path that were not found.
pub proof fn law_unrecorded_target_gets_a_404(entries: Seq<ExchangeModel>, request: RequestModel)
    requires
        forall|i: int|
            0 <= i < entries.len() ==> !same_target(
                #[trigger] entries[i],
                request.method,
                request.path,
            ),
    ensures
        answer(entries, request) == not_recorded(request.method, request.path),
        answer(entries, request).status == 404,
        ends_with(
            answer(entries, request).body,
            encode_utf8(request.method + " "@ + request.path),
        ),
{
    law_match_prefers_the_exact_request(entries, request.method, request.path, request.body);
    let named = request.method + " "@ + request.path;
    let intro = "mockreplay: no recorded exchange for "@;
    let body = not_recorded(request.method, request.path).body;
    assert(intro + request.method + " "@ + request.path =~= intro + named);
    lemma_encode_concat(intro, named);
    assert(body.skip(body.len() - encode_utf8(named).len()) =~= encode_utf8(named));
}

/// The last bytes of `s` are `end`.
pub open spec fn ends_with(s: Seq<u8>, end: Seq<u8>) -> bool {
    end.len() <= s.len() && s.skip(s.len() - end.len()) == end
}

/// The client that sent an unrecorded request reads the `404` as it was meant.
pub proof fn law_404_is_read_by_the_client(
    method: Seq<char>,
    path: Seq<char>,
    tail: Seq<u8>,
    closed: bool,
)
    requires
        not_recorded(method, path).body.len() <= isize::MAX,
    ensures
        response_from(encode_response(not_recorded(method, path)) + tail, closed) matches Ok(
            (response, rest),
        ) && response.status == 404 && response.body == not_recorded(method, path).body && rest
            == tail,
{
    reveal_strlit("Content-Type");
    reveal_strlit("text/plain");
    let response = not_recorded(method, path);
    let h = ("Content-Type"@, "text/plain"@);
    assert(is_word(h.0));
    assert(is_word(h.1));
    lemma_word_fits(h.0);
    lemma_word_fits(h.1);
    assert(all_fit_lines(response.headers));
    lemma_kept_responses_fit(response.headers);
    law_response_round_trip(response, tail, closed);
}

/// Replaying repeats what was recorded: a request with the method, path and
/// body of a recorded one gets the recorded response, byte for byte as the
/// client got it when it was recorded, whatever was recorded before of other
/// requests and whatever was recorded later.
pub proof fn law_replay_repeats_the_recorded_response(
    before: Seq<ExchangeModel>,
    request: RequestModel,
    response: ResponseModel,
    later: Seq<ExchangeModel>,
    again: RequestModel,
)
    requires
        exact_match(before, request.method, request.path, request.body) is None,
        again.method == request.method,
        again.path == request.path,
        again.body == request.body,
    ensures
        answer(before.push(exchange_of(request, response)) + later, again) == response,
        encode_response(answer(before.push(exchange_of(request, response)) + later, again))
            == encode_response(response),
{
    let e = exchange_of(request, response);
    let entries = before.push(e);
    law_recorded_exchange_is_found(before, e);
    assert(entries.drop_last() =~= before);
    assert(exact_match(entries, again.method, again.path, again.body) is Some);
    law_exact_match_is_kept(entries, later, again.method, again.path, again.body);
    assert((entries + later)[before.len() as int] == e);
}

/// Of two recordings of the same request, the first is replayed.
pub proof fn law_replay_repeats_the_first_recording(
    before: Seq<ExchangeModel>,
    request: RequestModel,
    response: ResponseModel,
)
    requires
        exact_match(before, request.method, request.path, request.body) is Some,
    ensures
        answer(before.push(exchange_of(request, response)), request) == answer(before, request),
{
    let e = exchange_of(request, response);
    law_recorded_exchange_is_found(before, e);
    law_match_prefers_the_exact_request(before, request.method, request.path, request.body);
}

/// Two recorded requests that differ in their bodies alone are told apart when
/// they are replayed.
pub proof fn law_bodies_tell_requests_apart(
    a: RequestModel,
    answer_a: ResponseModel,
    b: RequestModel,
    answer_b: ResponseModel,
)
    requires
        a.body != b.body,
    ensures
        answer(seq![exchange_of(a, answer_a), exchange_of(b, answer_b)], a) == answer_a,
        answer(seq![exchange_of(a, answer_a), exchange_of(b, answer_b)], b) == answer_b,
{
    let ea = exchange_of(a, answer_a);
    let eb = exchange_of(b, answer_b);
    let none = Seq::<ExchangeModel>::empty();
    law_replay_repeats_the_recorded_response(none, a, answer_a, seq![eb], a);
    assert(none.push(ea) + seq![eb] =~= seq![ea, eb]);
    let first = seq![ea];
    lemma_none_where(first, |e: ExchangeModel| same_request(e, b.method, b.path, b.body));
    law_replay_repeats_the_recorded_response(first, b, answer_b, none, b);
    assert(first.push(eb) + none =~= seq![ea, eb]);
}

} // verus!
