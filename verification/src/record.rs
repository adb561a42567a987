//! Recording real exchanges: each request of a client is forwarded to the real
//! server, the response is returned to the client, and the exchange is kept.
use vstd::prelude::*;

use crate::httpmsg::{
    encode_request, encode_response, read_request, read_response, request_from, response_from,
    write_request, write_response, Request, RequestModel, Response, ResponseModel,
};
use crate::reader::{ReadError, Reader};
use crate::recording::{ExchangeModel, RecordedExchange, Recording};

verus! {

/// The recording to begin with: the one that the file held, where it could be
/// read and understood, and an empty one otherwise.
pub fn load_or_default(loaded: Option<Recording>) -> (r: Recording)
    ensures
        match loaded {
            Some(recording) => r == recording && r@ == recording@,
            None => r.entries@.len() == 0 && r@ == Seq::<ExchangeModel>::empty(),
        },
{
    match loaded {
        Some(recording) => recording,
        None => Recording::default(),
    }
}

/// What is kept of a request and the response to it.
pub open spec fn exchange_of(request: RequestModel, response: ResponseModel) -> ExchangeModel {
    ExchangeModel {
        method: request.method,
        path: request.path,
        request_body: request.body,
        status: response.status,
        headers: response.headers,
        response_body: response.body,
    }
}

/// What is kept of a request and the response to it.
pub fn exchange(request: Request, response: Response) -> (r: RecordedExchange)
    ensures
        r@ == exchange_of(request@, response@),
        r.method@ == request.method@,
        r.path@ == request.path@,
        r.request_body@ == request.body@,
        r.status == response.status,
        r.headers.deep_view() == response.headers.deep_view(),
        r.response_body@ == response.body@,
{
    RecordedExchange {
        method: request.method,
        path: request.path,
        request_body: request.body,
        status: response.status,
        headers: response.headers,
        response_body: response.body,
    }
}

/// An exchange holds the method, the path and the body of its request, and the
/// status, the headers and the body of its response.
pub proof fn law_exchange_keeps_both_messages(request: RequestModel, response: ResponseModel)
    ensures
        exchange_of(request, response).method == request.method,
        exchange_of(request, response).path == request.path,
        exchange_of(request, response).request_body == request.body,
        exchange_of(request, response).status == response.status,
        exchange_of(request, response).headers == response.headers,
        exchange_of(request, response).response_body == response.body,
{
}

/// Appends an exchange to a recording.
pub fn append(recording: &mut Recording, entry: RecordedExchange)
    ensures
        final(recording)@ == old(recording)@.push(entry@),
        final(recording).entries@ == old(recording).entries@.push(entry),
{
    recording.entries.push(entry);
    assert(recording@ =~= old(recording)@.push(entry@));
}

/// One exchange in progress: what it is waiting for, and what it holds.
pub enum Session {
    /// For the rest of the request of the client.
    ReadingRequest { reader: Reader },
    /// For the connection to the real server.
    Connecting { request: Request },
    /// For the request to be sent to the real server.
    Forwarding { request: Request },
    /// For the rest of the response of the real server.
    ReadingResponse { request: Request, reader: Reader },
    /// For the response to be sent to the client.
    Returning { request: Request, response: Response },
    /// For the exchange to be recorded.
    Saving,
    /// For nothing any more.
    Finished,
}

/// What became of the last action.
pub enum Event {
    /// A read gave these bytes; none at the end of the connection.
    Received(Vec<u8>),
    /// The action was carried out.
    Completed,
}

/// What is to be done next.
pub enum Action {
    /// Read from the client.
    ReadClient,
    /// Connect to the real server.
    ConnectUpstream,
    /// Send these bytes to the real server.
    SendUpstream(Vec<u8>),
    /// Read from the real server.
    ReadUpstream,
    /// Send these bytes to the client.
    SendClient(Vec<u8>),
    /// Append this exchange to the recording.
    Record(RecordedExchange),
    /// Give up: what the client sent is not a request.
    RejectRequest(ReadError),
    /// Give up: what the real server sent is not a response.
    RejectResponse(ReadError),
    /// Nothing: the exchange is over.
    Finish,
}

/// What a [`Session`] holds.
pub enum SessionModel {
    ReadingRequest { unread: Seq<u8>, closed: bool },
    Connecting { request: RequestModel },
    Forwarding { request: RequestModel },
    ReadingResponse { request: RequestModel, unread: Seq<u8>, closed: bool },
    Returning { request: RequestModel, response: ResponseModel },
    Saving,
    Finished,
}

/// What an [`Event`] says.
pub enum EventModel {
    Received(Seq<u8>),
    Completed,
}

/// What an [`Action`] says.
pub enum ActionModel {
    ReadClient,
    ConnectUpstream,
    SendUpstream(Seq<u8>),
    ReadUpstream,
    SendClient(Seq<u8>),
    Record(ExchangeModel),
    RejectRequest(ReadError),
    RejectResponse(ReadError),
    Finish,
}

impl View for Session {
    type V = SessionModel;

    open spec fn view(&self) -> SessionModel {
        match self {
            Session::ReadingRequest { reader } => SessionModel::ReadingRequest {
                unread: reader.unread@,
                closed: reader.closed,
            },
            Session::Connecting { request } => SessionModel::Connecting { request: request@ },
            Session::Forwarding { request } => SessionModel::Forwarding { request: request@ },
            Session::ReadingResponse { request, reader } => SessionModel::ReadingResponse {
                request: request@,
                unread: reader.unread@,
                closed: reader.closed,
            },
            Session::Returning { request, response } => SessionModel::Returning {
                request: request@,
                response: response@,
            },
            Session::Saving => SessionModel::Saving,
            Session::Finished => SessionModel::Finished,
        }
    }
}

impl View for Event {
    type V = EventModel;

    open spec fn view(&self) -> EventModel {
        match self {
            Event::Received(chunk) => EventModel::Received(chunk@),
            Event::Completed => EventModel::Completed,
        }
    }
}

impl View for Action {
    type V = ActionModel;

    open spec fn view(&self) -> ActionModel {
        match self {
            Action::ReadClient => ActionModel::ReadClient,
            Action::ConnectUpstream => ActionModel::ConnectUpstream,
            Action::SendUpstream(bytes) => ActionModel::SendUpstream(bytes@),
            Action::ReadUpstream => ActionModel::ReadUpstream,
            Action::SendClient(bytes) => ActionModel::SendClient(bytes@),
            Action::Record(entry) => ActionModel::Record(entry@),
            Action::RejectRequest(e) => ActionModel::RejectRequest(*e),
            Action::RejectResponse(e) => ActionModel::RejectResponse(*e),
            Action::Finish => ActionModel::Finish,
        }
    }
}

/// The model of what a session is told, and of what it asks for, has the bytes
/// and the exchange that it has.
pub proof fn law_events_and_actions_model(bytes: Vec<u8>, entry: RecordedExchange)
    ensures
        Event::Received(bytes)@ == EventModel::Received(bytes@),
        Action::SendUpstream(bytes)@ == ActionModel::SendUpstream(bytes@),
        Action::SendClient(bytes)@ == ActionModel::SendClient(bytes@),
        Action::Record(entry)@ == ActionModel::Record(entry@),
{
}

/// Where a session begins: with nothing of the request read.
pub open spec fn initial() -> SessionModel {
    SessionModel::ReadingRequest { unread: Seq::empty(), closed: false }
}

/// What a session is after an event, and what it asks for. An event other than
/// the one it waits for ends it.
pub open spec fn transition(session: SessionModel, event: EventModel) -> (
    SessionModel,
    ActionModel,
) {
    match (session, event) {
        (SessionModel::ReadingRequest { unread, closed }, EventModel::Received(chunk)) => {
            let unread = unread + chunk;
            let closed = closed || chunk.len() == 0;
            match request_from(unread, closed) {
                Ok((request, _)) => (
                    SessionModel::Connecting { request },
                    ActionModel::ConnectUpstream,
                ),
                Err(ReadError::Incomplete) => (
                    SessionModel::ReadingRequest { unread, closed },
                    ActionModel::ReadClient,
                ),
                Err(e) => (SessionModel::Finished, ActionModel::RejectRequest(e)),
            }
        },
        (SessionModel::Connecting { request }, EventModel::Completed) => (
            SessionModel::Forwarding { request },
            ActionModel::SendUpstream(encode_request(request)),
        ),
        (SessionModel::Forwarding { request }, EventModel::Completed) => (
            SessionModel::ReadingResponse { request, unread: Seq::empty(), closed: false },
            ActionModel::ReadUpstream,
        ),
        (
            SessionModel::ReadingResponse { request, unread, closed },
            EventModel::Received(chunk),
        ) => {
            let unread = unread + chunk;
            let closed = closed || chunk.len() == 0;
            match response_from(unread, closed) {
                Ok((response, _)) => (
                    SessionModel::Returning { request, response },
                    ActionModel::SendClient(encode_response(response)),
                ),
                Err(ReadError::Incomplete) => (
                    SessionModel::ReadingResponse { request, unread, closed },
                    ActionModel::ReadUpstream,
                ),
                Err(e) => (SessionModel::Finished, ActionModel::RejectResponse(e)),
            }
        },
        (SessionModel::Returning { request, response }, EventModel::Completed) => (
            SessionModel::Saving,
            ActionModel::Record(exchange_of(request, response)),
        ),
        (_, _) => (SessionModel::Finished, ActionModel::Finish),
    }
}

impl Session {
    /// A new session, and the first thing to do for it.
    pub fn start() -> (r: (Session, Action))
        ensures
            r.0@ == initial(),
            r.1@ == ActionModel::ReadClient,
    {
        (Session::ReadingRequest { reader: Reader::open() }, Action::ReadClient)
    }

    /// Takes the session on by one event, and says what to do next.
    pub fn step(self, event: Event) -> (r: (Session, Action))
        ensures
            (r.0@, r.1@) == transition(self@, event@),
    {
        match (self, event) {
            (Session::ReadingRequest { mut reader }, Event::Received(chunk)) => {
                reader.feed(chunk.as_slice());
                match read_request(&mut reader) {
                    Ok(request) => (Session::Connecting { request }, Action::ConnectUpstream),
                    Err(ReadError::Incomplete) => (
                        Session::ReadingRequest { reader },
                        Action::ReadClient,
                    ),
                    Err(e) => (Session::Finished, Action::RejectRequest(e)),
                }
            },
            (Session::Connecting { request }, Event::Completed) => {
                let mut bytes: Vec<u8> = Vec::new();
                write_request(&mut bytes, &request);
                assert(bytes@ =~= encode_request(request@));
                (Session::Forwarding { request }, Action::SendUpstream(bytes))
            },
            (Session::Forwarding { request }, Event::Completed) => (
                Session::ReadingResponse { request, reader: Reader::open() },
                Action::ReadUpstream,
            ),
            (Session::ReadingResponse { request, mut reader }, Event::Received(chunk)) => {
                reader.feed(chunk.as_slice());
                match read_response(&mut reader) {
                    Ok(response) => {
                        let mut bytes: Vec<u8> = Vec::new();
                        write_response(&mut bytes, &response);
                        assert(bytes@ =~= encode_response(response@));
                        (Session::Returning { request, response }, Action::SendClient(bytes))
                    },
                    Err(ReadError::Incomplete) => (
                        Session::ReadingResponse { request, reader },
                        Action::ReadUpstream,
                    ),
                    Err(e) => (Session::Finished, Action::RejectResponse(e)),
                }
            },
            (Session::Returning { request, response }, Event::Completed) => (
                Session::Saving,
                Action::Record(exchange(request, response)),
            ),
            (_, _) => (Session::Finished, Action::Finish),
        }
    }
}

} // verus!
