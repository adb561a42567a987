//! What a recording session does from its first event to its last.
use vstd::prelude::*;

use crate::arrival::{
    all_of, law_ended_request_is_decided, law_ended_response_is_decided,
    law_request_is_not_revised, law_response_is_not_revised,
};
use crate::httpmsg::{
    encode_request, encode_response, request_from, response_from, RequestModel, ResponseModel,
};
use crate::record::{exchange_of, initial, transition, ActionModel, EventModel, SessionModel};
use crate::recording::{exact_match, ExchangeModel};
use crate::replay::{answer, law_replay_repeats_the_recorded_response};

verus! {

/// Every chunk holds bytes: an empty one would be the end of the connection.
pub open spec fn none_empty(chunks: Seq<Seq<u8>>) -> bool {
    forall|i: int| 0 <= i < chunks.len() ==> (#[trigger] chunks[i]).len() > 0
}

/// The session, and what it asks for, once the chunks have been handed to it as
/// long as it asked for more from the client, and then the end of the
/// connection if it still did.
pub open spec fn after_client(session: SessionModel, chunks: Seq<Seq<u8>>) -> (
    SessionModel,
    ActionModel,
)
    decreases chunks.len(),
{
    if chunks.len() == 0 {
        transition(session, EventModel::Received(Seq::empty()))
    } else {
        let (next, action) = transition(session, EventModel::Received(chunks.first()));
        if action is ReadClient {
            after_client(next, chunks.drop_first())
        } else {
            (next, action)
        }
    }
}

/// The same for what comes from the real server.
pub open spec fn after_upstream(session: SessionModel, chunks: Seq<Seq<u8>>) -> (
    SessionModel,
    ActionModel,
)
    decreases chunks.len(),
{
    if chunks.len() == 0 {
        transition(session, EventModel::Received(Seq::empty()))
    } else {
        let (next, action) = transition(session, EventModel::Received(chunks.first()));
        if action is ReadUpstream {
            after_upstream(next, chunks.drop_first())
        } else {
            (next, action)
        }
    }
}

proof fn lemma_client_is_heard(seen: Seq<u8>, chunks: Seq<Seq<u8>>)
    requires
        none_empty(chunks),
    ensures
        after_client(SessionModel::ReadingRequest { unread: seen, closed: false }, chunks)
            == match request_from(seen + all_of(chunks), true) {
            Ok((request, _)) => (
                SessionModel::Connecting { request },
                ActionModel::ConnectUpstream,
            ),
            Err(e) => (SessionModel::Finished, ActionModel::RejectRequest(e)),
        },
    decreases chunks.len(),
{
    if chunks.len() == 0 {
        assert(seen + Seq::<u8>::empty() =~= seen);
        law_ended_request_is_decided(seen);
    } else {
        let arrived = seen + chunks.first();
        let rest = chunks.drop_first();
        assert(chunks[0].len() > 0);
        assert forall|i: int| 0 <= i < rest.len() implies (#[trigger] rest[i]).len() > 0 by {
            assert(chunks[i + 1].len() > 0);
        }
        law_request_is_not_revised(arrived, all_of(rest), true);
        assert(seen + all_of(chunks) =~= arrived + all_of(rest));
        lemma_client_is_heard(arrived, rest);
    }
}

proof fn lemma_upstream_is_heard(request: RequestModel, seen: Seq<u8>, chunks: Seq<Seq<u8>>)
    requires
        none_empty(chunks),
    ensures
        after_upstream(
            SessionModel::ReadingResponse { request, unread: seen, closed: false },
            chunks,
        ) == match response_from(seen + all_of(chunks), true) {
            Ok((response, _)) => (
                SessionModel::Returning { request, response },
                ActionModel::SendClient(encode_response(response)),
            ),
            Err(e) => (SessionModel::Finished, ActionModel::RejectResponse(e)),
        },
    decreases chunks.len(),
{
    if chunks.len() == 0 {
        assert(seen + Seq::<u8>::empty() =~= seen);
        law_ended_response_is_decided(seen);
    } else {
        let arrived = seen + chunks.first();
        let rest = chunks.drop_first();
        assert(chunks[0].len() > 0);
        assert forall|i: int| 0 <= i < rest.len() implies (#[trigger] rest[i]).len() > 0 by {
            assert(chunks[i + 1].len() > 0);
        }
        law_response_is_not_revised(arrived, all_of(rest), true);
        assert(seen + all_of(chunks) =~= arrived + all_of(rest));
        lemma_upstream_is_heard(request, arrived, rest);
    }
}

/// However the request of the client is cut into chunks, the session connects
/// to the real server with the request that all of them make, or rejects what
/// is no request.
pub proof fn law_session_hears_the_client(chunks: Seq<Seq<u8>>)
    requires
        none_empty(chunks),
    ensures
        after_client(initial(), chunks) == match request_from(all_of(chunks), true) {
            Ok((request, _)) => (
                SessionModel::Connecting { request },
                ActionModel::ConnectUpstream,
            ),
            Err(e) => (SessionModel::Finished, ActionModel::RejectRequest(e)),
        },
{
    lemma_client_is_heard(Seq::empty(), chunks);
    assert(Seq::<u8>::empty() + all_of(chunks) =~= all_of(chunks));
}

/// However the response of the real server is cut into chunks, the session
/// returns the response that all of them make to the client, or rejects what
/// is no response.
pub proof fn law_session_hears_the_real_server(request: RequestModel, chunks: Seq<Seq<u8>>)
    requires
        none_empty(chunks),
    ensures
        after_upstream(
            SessionModel::ReadingResponse { request, unread: Seq::empty(), closed: false },
            chunks,
        ) == match response_from(all_of(chunks), true) {
            Ok((response, _)) => (
                SessionModel::Returning { request, response },
                ActionModel::SendClient(encode_response(response)),
            ),
            Err(e) => (SessionModel::Finished, ActionModel::RejectResponse(e)),
        },
{
    lemma_upstream_is_heard(request, Seq::empty(), chunks);
    assert(Seq::<u8>::empty() + all_of(chunks) =~= all_of(chunks));
}

/// An event that a session does not wait for ends it, and so does every event
/// once the exchange is to be recorded.
pub proof fn law_unexpected_event_ends_the_session(session: SessionModel, event: EventModel)
    requires
        event is Received ==> !(session is ReadingRequest || session is ReadingResponse),
        event is Completed ==> !(session is Connecting || session is Forwarding
            || session is Returning),
    ensures
        transition(session, event) == (SessionModel::Finished, ActionModel::Finish),
{
}

/// The actions of a session in which the client sends one list of chunks, the
/// real server answers with another, and every action is carried out.
#[verifier::opaque]
pub open spec fn whole_session(client: Seq<Seq<u8>>, upstream: Seq<Seq<u8>>) -> Seq<ActionModel> {
    let (connecting, connect) = after_client(initial(), client);
    let (forwarding, send_upstream) = transition(connecting, EventModel::Completed);
    let (reading, read_upstream) = transition(forwarding, EventModel::Completed);
    let (returning, send_client) = after_upstream(reading, upstream);
    let (saving, record) = transition(returning, EventModel::Completed);
    let (_, finish) = transition(saving, EventModel::Completed);
    seq![connect, send_upstream, read_upstream, send_client, record, finish]
}

/// The bytes make this request, whatever follows it.
pub open spec fn makes_request(bytes: Seq<u8>, request: RequestModel) -> bool {
    request_from(bytes, true) matches Ok((got, _)) && got == request
}

/// The bytes make this response, whatever follows it.
pub open spec fn makes_response(bytes: Seq<u8>, response: ResponseModel) -> bool {
    response_from(bytes, true) matches Ok((got, _)) && got == response
}

/// A real exchange is forwarded to the real server, returned to the client, and
/// then recorded.
pub proof fn law_real_exchange_is_recorded(
    client: Seq<Seq<u8>>,
    request: RequestModel,
    upstream: Seq<Seq<u8>>,
    response: ResponseModel,
)
    requires
        none_empty(client),
        none_empty(upstream),
        makes_request(all_of(client), request),
        makes_response(all_of(upstream), response),
    ensures
        whole_session(client, upstream) == seq![
            ActionModel::ConnectUpstream,
            ActionModel::SendUpstream(encode_request(request)),
            ActionModel::ReadUpstream,
            ActionModel::SendClient(encode_response(response)),
            ActionModel::Record(exchange_of(request, response)),
            ActionModel::Finish,
        ],
{
    reveal(whole_session);
    law_session_hears_the_client(client);
    law_session_hears_the_real_server(request, upstream);
}

/// The session after these events.
pub open spec fn state_after(events: Seq<EventModel>) -> SessionModel
    decreases events.len(),
{
    if events.len() == 0 {
        initial()
    } else {
        transition(state_after(events.drop_last()), events.last()).0
    }
}

/// What the session asks for after these events.
pub open spec fn asked_after(events: Seq<EventModel>) -> ActionModel {
    if events.len() == 0 {
        ActionModel::ReadClient
    } else {
        transition(state_after(events.drop_last()), events.last()).1
    }
}

/// The request was asked to be sent to the real server within these events.
pub open spec fn was_forwarded(events: Seq<EventModel>, request: RequestModel) -> bool {
    exists|i: int|
        0 <= i <= events.len() && #[trigger] asked_after(events.take(i))
            == ActionModel::SendUpstream(encode_request(request))
}

/// The response was asked to be sent to the client within these events.
pub open spec fn was_returned(events: Seq<EventModel>, response: ResponseModel) -> bool {
    exists|i: int|
        0 <= i <= events.len() && #[trigger] asked_after(events.take(i))
            == ActionModel::SendClient(encode_response(response))
}

proof fn lemma_history(events: Seq<EventModel>)
    ensures
        match state_after(events) {
            SessionModel::Forwarding { request } => was_forwarded(events, request),
            SessionModel::ReadingResponse { request, .. } => was_forwarded(events, request),
            SessionModel::Returning { request, response } => was_forwarded(events, request)
                && was_returned(events, response),
            _ => true,
        },
    decreases events.len(),
{
    if events.len() > 0 {
        let front = events.drop_last();
        lemma_history(front);
        assert(events.take(events.len() as int) =~= events);
        assert forall|request: RequestModel| was_forwarded(front, request) implies was_forwarded(
            events,
            request,
        ) by {
            let i = choose|i: int|
                0 <= i <= front.len() && #[trigger] asked_after(front.take(i))
                    == ActionModel::SendUpstream(encode_request(request));
            assert(events.take(i) =~= front.take(i));
        }
        match state_after(events) {
            SessionModel::Forwarding { request } => {
                assert(asked_after(events.take(events.len() as int)) == ActionModel::SendUpstream(
                    encode_request(request),
                ));
            },
            SessionModel::Returning { request, response } => {
                assert(asked_after(events.take(events.len() as int)) == ActionModel::SendClient(
                    encode_response(response),
                ));
            },
            _ => {},
        }
    }
}

/// Whatever happens to a session, it has an exchange recorded only once the
/// request was sent to the real server and the response to the client.
pub proof fn law_nothing_is_recorded_too_early(events: Seq<EventModel>, entry: ExchangeModel)
    requires
        asked_after(events) == ActionModel::Record(entry),
    ensures
        exists|request: RequestModel, response: ResponseModel|
            entry == exchange_of(request, response) && #[trigger] was_forwarded(
                events.drop_last(),
                request,
            ) && #[trigger] was_returned(events.drop_last(), response),
{
    lemma_history(events.drop_last());
    match state_after(events.drop_last()) {
        SessionModel::Returning { request, response } => {
            assert(was_forwarded(events.drop_last(), request));
            assert(was_returned(events.drop_last(), response));
        },
        _ => {},
    }
}

proof fn lemma_ended_stays_ended(events: Seq<EventModel>, i: int)
    requires
        0 <= i <= events.len(),
        state_after(events.take(i)) is Saving || state_after(events.take(i)) is Finished,
    ensures
        state_after(events) is Saving || state_after(events) is Finished,
        i < events.len() ==> !(asked_after(events) is Record),
    decreases events.len() - i,
{
    if i < events.len() {
        let front = events.drop_last();
        assert(front.take(i) =~= events.take(i));
        lemma_ended_stays_ended(front, i);
    } else {
        assert(events.take(i) =~= events);
    }
}

/// Whatever happens to a session, it has at most one exchange recorded.
pub proof fn law_one_exchange_per_session(events: Seq<EventModel>, i: int)
    requires
        0 <= i < events.len(),
        asked_after(events.take(i)) is Record,
    ensures
        !(asked_after(events) is Record),
{
    lemma_ended_stays_ended(events, i);
}

/// Recording and then replaying: a client that sends a recorded request again
/// gets from the recording what it got when it was recorded, byte for byte,
/// whatever was recorded before of other requests and whatever was recorded
/// later.
pub proof fn law_record_then_replay(
    before: Seq<ExchangeModel>,
    client: Seq<Seq<u8>>,
    request: RequestModel,
    upstream: Seq<Seq<u8>>,
    response: ResponseModel,
    later: Seq<ExchangeModel>,
    again: RequestModel,
)
    requires
        none_empty(client),
        none_empty(upstream),
        makes_request(all_of(client), request),
        makes_response(all_of(upstream), response),
        exact_match(before, request.method, request.path, request.body) is None,
        again.method == request.method,
        again.path == request.path,
        again.body == request.body,
    ensures
        whole_session(client, upstream)[4] matches ActionModel::Record(entry)
            && whole_session(client, upstream)[3] == ActionModel::SendClient(
            encode_response(answer(before.push(entry) + later, again)),
        ),
{
    law_real_exchange_is_recorded(client, request, upstream, response);
    law_replay_repeats_the_recorded_response(before, request, response, later, again);
    assert(whole_session(client, upstream)[4] == ActionModel::Record(
        exchange_of(request, response),
    ));
    assert(whole_session(client, upstream)[3] == ActionModel::SendClient(
        encode_response(response),
    ));
}

} // verus!
