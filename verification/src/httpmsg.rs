//! HTTP/1.1 messages in a deliberately small model: a request line or status
//! line, headers, and a body that is framed by `Content-Length` or, for
//! responses, by the end of the connection. There is no chunked transfer
//! encoding.
use vstd::prelude::*;
use vstd::slice::*;
use vstd::string::*;
use vstd::utf8::*;

use crate::reader::{lemma_newline_at, line_from, line_len, read_line, ReadError, Reader};
use crate::search::{first_where, lemma_is_first_where, lemma_none_where};
use crate::text::{
    decimal, eq_ignore_ascii_case, nth_word, number_in, parse_number, same_ignoring_case,
    split_at_first, split_once, trim, trim_line_end, trimmed, without_line_end, words,
};
use crate::utf8_text::{lemma_encode_concat, push_bytes, push_decimal, push_text};

verus! {

#[derive(Debug, Clone, PartialEq)]
pub struct Request {
    pub method: String,
    pub path: String,
    pub headers: Vec<(String, String)>,
    pub body: Vec<u8>,
}

#[derive(Debug, Clone, PartialEq)]
pub struct Response {
    pub status: u16,
    pub headers: Vec<(String, String)>,
    pub body: Vec<u8>,
}

/// Header names and their values, in order.
pub type HeaderSeq = Seq<(Seq<char>, Seq<char>)>;

/// What a [`Request`] says.
#[verifier::ext_equal]
pub struct RequestModel {
    pub method: Seq<char>,
    pub path: Seq<char>,
    pub headers: HeaderSeq,
    pub body: Seq<u8>,
}

/// What a [`Response`] says.
#[verifier::ext_equal]
pub struct ResponseModel {
    pub status: u16,
    pub headers: HeaderSeq,
    pub body: Seq<u8>,
}

impl View for Request {
    type V = RequestModel;

    open spec fn view(&self) -> RequestModel {
        RequestModel {
            method: self.method@,
            path: self.path@,
            headers: self.headers.deep_view(),
            body: self.body@,
        }
    }
}

impl View for Response {
    type V = ResponseModel;

    open spec fn view(&self) -> ResponseModel {
        ResponseModel {
            status: self.status,
            headers: self.headers.deep_view(),
            body: self.body@,
        }
    }
}

/// The model of a request says what each of its parts says.
pub proof fn law_request_model(request: Request)
    ensures
        request@.method == request.method@,
        request@.path == request.path@,
        request@.headers.len() == request.headers@.len(),
        forall|i: int|
            0 <= i < request.headers@.len() ==> #[trigger] request@.headers[i] == (
                request.headers@[i].0@,
                request.headers@[i].1@,
            ),
        request@.body == request.body@,
{
}

/// The model of a response says what each of its parts says.
pub proof fn law_response_model(response: Response)
    ensures
        response@.status == response.status,
        response@.headers.len() == response.headers@.len(),
        forall|i: int|
            0 <= i < response.headers@.len() ==> #[trigger] response@.headers[i] == (
                response.headers@[i].0@,
                response.headers@[i].1@,
            ),
        response@.body == response.body@,
{
}

/// The value of the first header of the name `name`, in whatever case.
pub open spec fn header_lookup(headers: HeaderSeq, name: Seq<char>) -> Option<Seq<char>> {
    match first_where(headers, |h: (Seq<char>, Seq<char>)| same_ignoring_case(h.0, name)) {
        Some(i) => Some(headers[i].1),
        None => None,
    }
}

/// The value of the first header of the name `name`, in whatever case.
pub fn header_value<'a>(headers: &'a [(String, String)], name: &str) -> (r: Option<&'a str>)
    ensures
        match header_lookup(headers.deep_view(), name@) {
            Some(v) => r matches Some(found) && found@ == v,
            None => r is None,
        },
{
    let ghost model = headers.deep_view();
    let ghost named = |h: (Seq<char>, Seq<char>)| same_ignoring_case(h.0, name@);
    let mut i: usize = 0;
    while i < headers.len()
        invariant
            i <= headers@.len(),
            model == headers.deep_view(),
            named == (|h: (Seq<char>, Seq<char>)| same_ignoring_case(h.0, name@)),
            forall|j: int| 0 <= j < i ==> !named(#[trigger] model[j]),
        decreases headers.len() - i,
    {
        assert(model[i as int] == (headers@[i as int].0@, headers@[i as int].1@));
        if eq_ignore_ascii_case(headers[i].0.as_str(), name) {
            proof {
                lemma_is_first_where(model, named, i as int);
            }
            return Some(headers[i].1.as_str());
        }
        i = i + 1;
    }
    proof {
        lemma_none_where(model, named);
    }
    None
}

/// The header that a line of the message head holds: what stands before and
/// after its first colon, without the white space around either. A line
/// without a colon holds none.
pub open spec fn header_in(text: Seq<char>) -> Option<(Seq<char>, Seq<char>)> {
    match split_at_first(text, ':') {
        Some((name, value)) => Some((trimmed(name), trimmed(value))),
        None => None,
    }
}

/// A line that says anything takes up part of the input.
pub proof fn lemma_line_shrinks(s: Seq<u8>, closed: bool)
    ensures
        line_from(s, closed) matches Ok((line, rest)) ==> rest.len() <= s.len() && (without_line_end(
            line,
        ).len() > 0 ==> rest.len() < s.len()),
{
    lemma_newline_at(s);
    if s.len() == 0 {
        assert(s.take(line_len(s) as int) =~= s);
    }
}

/// The headers at the front of `s`, up to the empty line that ends them, and
/// what follows that line. The end of the input ends them too.
pub open spec fn headers_from(s: Seq<u8>, closed: bool) -> Result<(HeaderSeq, Seq<u8>), ReadError>
    decreases s.len(),
{
    match line_from(s, closed) {
        Err(e) => Err(e),
        Ok((line, rest)) => {
            let text = without_line_end(line);
            if text.len() == 0 {
                Ok((Seq::empty(), rest))
            } else {
                proof {
                    lemma_line_shrinks(s, closed);
                }
                match headers_from(rest, closed) {
                    Err(e) => Err(e),
                    Ok((more, tail)) => match header_in(text) {
                        Some(h) => Ok((seq![h] + more, tail)),
                        None => Ok((more, tail)),
                    },
                }
            }
        },
    }
}

/// Reads the headers at the front of `input`, up to the empty line that ends
/// them.
pub fn read_headers(input: &[u8], closed: bool) -> (r: Result<
    (Vec<(String, String)>, &[u8]),
    ReadError,
>)
    ensures
        match headers_from(input@, closed) {
            Ok((headers, rest)) => r matches Ok(got) && got.0.deep_view() == headers && got.1@
                == rest,
            Err(e) => r matches Err(x) && x == e,
        },
{
    let mut headers: Vec<(String, String)> = Vec::new();
    let mut rest: &[u8] = input;
    assert(headers.deep_view() =~= Seq::empty());
    loop
        invariant
            match headers_from(rest@, closed) {
                Ok((more, tail)) => headers_from(input@, closed) == Ok::<
                    (HeaderSeq, Seq<u8>),
                    ReadError,
                >((headers.deep_view() + more, tail)),
                Err(e) => headers_from(input@, closed) == Err::<(HeaderSeq, Seq<u8>), ReadError>(e),
            },
        decreases rest@.len(),
    {
        proof {
            lemma_line_shrinks(rest@, closed);
        }
        let (line, after) = match read_line(rest, closed) {
            Ok(got) => got,
            Err(e) => {
                return Err(e);
            },
        };
        let text = trim_line_end(line.as_str());
        if text.is_empty() {
            assert(headers.deep_view() + Seq::empty() =~= headers.deep_view());
            return Ok((headers, after));
        }
        let ghost before = headers.deep_view();
        if let Some((name, value)) = split_once(text, ':') {
            let name = trim(name);
            let value = trim(value);
            headers.push((name.to_owned(), value.to_owned()));
            assert(headers.deep_view() =~= before.push((name@, value@)));
        }
        proof {
            match headers_from(after@, closed) {
                Ok((more, tail)) => {
                    match header_in(text@) {
                        Some(h) => {
                            assert(before + (seq![h] + more) =~= before.push(h) + more);
                        },
                        None => {},
                    }
                },
                Err(e) => {},
            }
        }
        rest = after;
    }
}

/// The body length that the headers declare: the first `Content-Length`, where
/// its value is a number.
pub open spec fn content_length(headers: HeaderSeq) -> Option<nat> {
    match header_lookup(headers, "content-length"@) {
        Some(value) => number_in(value, usize::MAX as nat),
        None => None,
    }
}

/// The body length that the headers declare.
fn declared_length(headers: &[(String, String)]) -> (r: Option<usize>)
    ensures
        match content_length(headers.deep_view()) {
            Some(n) => r matches Some(found) && found == n,
            None => r is None,
        },
{
    match header_value(headers, "content-length") {
        Some(value) => parse_number(value, usize::MAX),
        None => None,
    }
}

/// A body of `len` bytes at the front of `s`, and what follows it.
pub open spec fn sized_body_from(s: Seq<u8>, closed: bool, len: nat) -> Result<
    (Seq<u8>, Seq<u8>),
    ReadError,
> {
    if len > isize::MAX {
        Err(ReadError::BodyTooLarge)
    } else if len <= s.len() {
        Ok((s.take(len as int), s.skip(len as int)))
    } else if closed {
        Err(ReadError::UnexpectedEof)
    } else {
        Err(ReadError::Incomplete)
    }
}

/// The body of a request with these headers, at the front of `s`. Without a
/// declared length it is empty.
pub open spec fn request_body_from(s: Seq<u8>, closed: bool, headers: HeaderSeq) -> Result<
    (Seq<u8>, Seq<u8>),
    ReadError,
> {
    match content_length(headers) {
        Some(len) => sized_body_from(s, closed, len),
        None => Ok((Seq::empty(), s)),
    }
}

/// The body of a response with these headers, at the front of `s`. Without a
/// declared length it goes on until the connection ends.
pub open spec fn response_body_from(s: Seq<u8>, closed: bool, headers: HeaderSeq) -> Result<
    (Seq<u8>, Seq<u8>),
    ReadError,
> {
    match content_length(headers) {
        Some(len) => sized_body_from(s, closed, len),
        None => if closed {
            Ok((s, Seq::empty()))
        } else {
            Err(ReadError::Incomplete)
        },
    }
}

/// Reads a body of `len` bytes.
fn read_exact(input: &[u8], closed: bool, len: usize) -> (r: Result<(Vec<u8>, &[u8]), ReadError>)
    ensures
        match sized_body_from(input@, closed, len as nat) {
            Ok((body, rest)) => r matches Ok(got) && got.0@ == body && got.1@ == rest,
            Err(e) => r matches Err(x) && x == e,
        },
{
    if len > isize::MAX as usize {
        Err(ReadError::BodyTooLarge)
    } else if len <= input.len() {
        assert(input@.take(len as int) =~= input@.subrange(0, len as int));
        assert(input@.skip(len as int) =~= input@.subrange(len as int, input@.len() as int));
        Ok((slice_to_vec(slice_subrange(input, 0, len)), slice_subrange(input, len, input.len())))
    } else if closed {
        Err(ReadError::UnexpectedEof)
    } else {
        Err(ReadError::Incomplete)
    }
}

/// Reads the body of a request. An absent `Content-Length` means no body: a
/// client that sends a body of unspecified length does not speak valid HTTP,
/// and [`write_request`] always sets the header.
pub fn read_body<'a>(input: &'a [u8], closed: bool, headers: &[(String, String)]) -> (r: Result<
    (Vec<u8>, &'a [u8]),
    ReadError,
>)
    ensures
        match request_body_from(input@, closed, headers.deep_view()) {
            Ok((body, rest)) => r matches Ok(got) && got.0@ == body && got.1@ == rest,
            Err(e) => r matches Err(x) && x == e,
        },
{
    match declared_length(headers) {
        Some(len) => read_exact(input, closed, len),
        None => Ok((Vec::new(), input)),
    }
}

/// Reads the body of a response. A server that omits `Content-Length` and
/// closes the connection to end the body is within its rights, so the body is
/// then all that arrives until the end of the connection.
pub fn read_body_or_until_eof<'a>(
    input: &'a [u8],
    closed: bool,
    headers: &[(String, String)],
) -> (r: Result<(Vec<u8>, &'a [u8]), ReadError>)
    ensures
        match response_body_from(input@, closed, headers.deep_view()) {
            Ok((body, rest)) => r matches Ok(got) && got.0@ == body && got.1@ == rest,
            Err(e) => r matches Err(x) && x == e,
        },
{
    match declared_length(headers) {
        Some(len) => read_exact(input, closed, len),
        None => if closed {
            let (_, end) = input.split_at(input.len());
            assert(end@ =~= Seq::empty());
            Ok((slice_to_vec(input), end))
        } else {
            Err(ReadError::Incomplete)
        },
    }
}

/// The method and the path of a request line: its first two words. A missing
/// method is empty, a missing path is `/`.
pub open spec fn request_line_parts(line: Seq<char>) -> (Seq<char>, Seq<char>) {
    let parts = words(line);
    (
        if parts.len() > 0 {
            parts[0]
        } else {
            Seq::empty()
        },
        if parts.len() > 1 {
            parts[1]
        } else {
            "/"@
        },
    )
}

/// The request at the front of `s`, and what follows it.
pub open spec fn request_from(s: Seq<u8>, closed: bool) -> Result<
    (RequestModel, Seq<u8>),
    ReadError,
> {
    match line_from(s, closed) {
        Err(e) => Err(e),
        Ok((line, after_line)) => match headers_from(after_line, closed) {
            Err(e) => Err(e),
            Ok((headers, after_head)) => match request_body_from(after_head, closed, headers) {
                Err(e) => Err(e),
                Ok((body, rest)) => {
                    let (method, path) = request_line_parts(line);
                    Ok((RequestModel { method, path, headers, body }, rest))
                },
            },
        },
    }
}

/// The status of a status line: its second word, where that is a number up to
/// 65535, and 0 otherwise.
pub open spec fn status_in(line: Seq<char>) -> u16 {
    let parts = words(line);
    if parts.len() > 1 {
        match number_in(parts[1], 65535) {
            Some(n) => n as u16,
            None => 0,
        }
    } else {
        0
    }
}

/// The response at the front of `s`, and what follows it.
pub open spec fn response_from(s: Seq<u8>, closed: bool) -> Result<
    (ResponseModel, Seq<u8>),
    ReadError,
> {
    match line_from(s, closed) {
        Err(e) => Err(e),
        Ok((line, after_line)) => match headers_from(after_line, closed) {
            Err(e) => Err(e),
            Ok((headers, after_head)) => match response_body_from(after_head, closed, headers) {
                Err(e) => Err(e),
                Ok((body, rest)) => Ok(
                    (ResponseModel { status: status_in(line), headers, body }, rest),
                ),
            },
        },
    }
}

fn parse_request(input: &[u8], closed: bool) -> (r: Result<(Request, &[u8]), ReadError>)
    ensures
        match request_from(input@, closed) {
            Ok((request, rest)) => r matches Ok(got) && got.0@ == request && got.1@ == rest,
            Err(e) => r matches Err(x) && x == e,
        },
{
    let (line, after_line) = match read_line(input, closed) {
        Ok(got) => got,
        Err(e) => {
            return Err(e);
        },
    };
    let method = match nth_word(line.as_str(), 0) {
        Some(word) => word.to_owned(),
        None => String::new(),
    };
    let path = match nth_word(line.as_str(), 1) {
        Some(word) => word.to_owned(),
        None => "/".to_owned(),
    };
    let (headers, after_head) = match read_headers(after_line, closed) {
        Ok(got) => got,
        Err(e) => {
            return Err(e);
        },
    };
    let (body, rest) = match read_body(after_head, closed, headers.as_slice()) {
        Ok(got) => got,
        Err(e) => {
            return Err(e);
        },
    };
    Ok((Request { method, path, headers, body }, rest))
}

fn parse_response(input: &[u8], closed: bool) -> (r: Result<(Response, &[u8]), ReadError>)
    ensures
        match response_from(input@, closed) {
            Ok((response, rest)) => r matches Ok(got) && got.0@ == response && got.1@ == rest,
            Err(e) => r matches Err(x) && x == e,
        },
{
    let (line, after_line) = match read_line(input, closed) {
        Ok(got) => got,
        Err(e) => {
            return Err(e);
        },
    };
    let status = match nth_word(line.as_str(), 1) {
        Some(word) => match parse_number(word, 65535) {
            Some(n) => n as u16,
            None => 0,
        },
        None => 0,
    };
    let (headers, after_head) = match read_headers(after_line, closed) {
        Ok(got) => got,
        Err(e) => {
            return Err(e);
        },
    };
    let (body, rest) = match read_body_or_until_eof(after_head, closed, headers.as_slice()) {
        Ok(got) => got,
        Err(e) => {
            return Err(e);
        },
    };
    Ok((Response { status, headers, body }, rest))
}

/// Reads the request at the front of what has arrived, and leaves what follows
/// it. Where no request can be read, nothing is taken.
pub fn read_request(reader: &mut Reader) -> (r: Result<Request, ReadError>)
    ensures
        final(reader).closed == old(reader).closed,
        match request_from(old(reader).unread@, old(reader).closed) {
            Ok((request, rest)) => r matches Ok(got) && got@ == request && final(reader).unread@
                == rest,
            Err(e) => r matches Err(x) && x == e && final(reader).unread@ == old(reader).unread@,
        },
{
    match parse_request(reader.unread.as_slice(), reader.closed) {
        Ok((request, rest)) => {
            let rest = slice_to_vec(rest);
            reader.unread = rest;
            Ok(request)
        },
        Err(e) => Err(e),
    }
}

/// Reads the response at the front of what has arrived, and leaves what
/// follows it. Where no response can be read, nothing is taken.
pub fn read_response(reader: &mut Reader) -> (r: Result<Response, ReadError>)
    ensures
        final(reader).closed == old(reader).closed,
        match response_from(old(reader).unread@, old(reader).closed) {
            Ok((response, rest)) => r matches Ok(got) && got@ == response && final(reader).unread@
                == rest,
            Err(e) => r matches Err(x) && x == e && final(reader).unread@ == old(reader).unread@,
        },
{
    match parse_response(reader.unread.as_slice(), reader.closed) {
        Ok((response, rest)) => {
            let rest = slice_to_vec(rest);
            reader.unread = rest;
            Ok(response)
        },
        Err(e) => Err(e),
    }
}

/// The line that writes a header.
pub open spec fn header_line(h: (Seq<char>, Seq<char>)) -> Seq<char> {
    h.0 + ": "@ + h.1 + "\r\n"@
}

/// The lines that write the headers `headers`.
pub open spec fn header_lines(headers: HeaderSeq) -> Seq<char>
    decreases headers.len(),
{
    if headers.len() == 0 {
        Seq::empty()
    } else {
        header_lines(headers.drop_last()) + header_line(headers.last())
    }
}

/// The headers of a request that are passed on: all but `Content-Length`.
pub open spec fn kept_request_headers(headers: HeaderSeq) -> HeaderSeq {
    headers.filter(|h: (Seq<char>, Seq<char>)| !same_ignoring_case(h.0, "content-length"@))
}

/// The headers that a written request has: those passed on, and the length of
/// its body.
pub open spec fn sent_request_headers(request: RequestModel) -> HeaderSeq {
    kept_request_headers(request.headers).push(
        ("content-length"@, decimal(request.body.len())),
    )
}

/// The request line.
pub open spec fn request_line(request: RequestModel) -> Seq<char> {
    request.method + " "@ + request.path + " HTTP/1.1\r\n"@
}

/// The bytes that write a request.
pub open spec fn encode_request(request: RequestModel) -> Seq<u8> {
    encode_utf8(
        request_line(request) + header_lines(sent_request_headers(request)) + "\r\n"@,
    ) + request.body
}

/// The header `name` frames a response, so that a written response has its own.
pub open spec fn frames_response(name: Seq<char>) -> bool {
    ||| same_ignoring_case(name, "content-length"@)
    ||| same_ignoring_case(name, "transfer-encoding"@)
    ||| same_ignoring_case(name, "connection"@)
}

/// The headers of a response that are passed on: all but those that frame it.
pub open spec fn kept_response_headers(headers: HeaderSeq) -> HeaderSeq {
    headers.filter(|h: (Seq<char>, Seq<char>)| !frames_response(h.0))
}

/// The headers that a written response has: those passed on, the length of its
/// body, and that the connection ends after it.
pub open spec fn sent_response_headers(response: ResponseModel) -> HeaderSeq {
    kept_response_headers(response.headers).push(
        ("content-length"@, decimal(response.body.len())),
    ).push(("connection"@, "close"@))
}

/// The phrase that goes with a status.
pub open spec fn reason_for(status: u16) -> Seq<char> {
    if status == 200 {
        "OK"@
    } else if status == 201 {
        "Created"@
    } else if status == 204 {
        "No Content"@
    } else if status == 301 {
        "Moved Permanently"@
    } else if status == 302 {
        "Found"@
    } else if status == 304 {
        "Not Modified"@
    } else if status == 400 {
        "Bad Request"@
    } else if status == 401 {
        "Unauthorized"@
    } else if status == 403 {
        "Forbidden"@
    } else if status == 404 {
        "Not Found"@
    } else if status == 500 {
        "Internal Server Error"@
    } else if status == 502 {
        "Bad Gateway"@
    } else if status == 503 {
        "Service Unavailable"@
    } else {
        "Unknown"@
    }
}

/// The phrase that goes with a status.
pub fn reason_phrase(status: u16) -> (r: &'static str)
    ensures
        r@ == reason_for(status),
{
    match status {
        200 => "OK",
        201 => "Created",
        204 => "No Content",
        301 => "Moved Permanently",
        302 => "Found",
        304 => "Not Modified",
        400 => "Bad Request",
        401 => "Unauthorized",
        403 => "Forbidden",
        404 => "Not Found",
        500 => "Internal Server Error",
        502 => "Bad Gateway",
        503 => "Service Unavailable",
        _ => "Unknown",
    }
}

/// The status line.
pub open spec fn status_line(status: u16) -> Seq<char> {
    "HTTP/1.1 "@ + decimal(status as nat) + " "@ + reason_for(status) + "\r\n"@
}

/// The bytes that write a response.
pub open spec fn encode_response(response: ResponseModel) -> Seq<u8> {
    encode_utf8(
        status_line(response.status) + header_lines(sent_response_headers(response)) + "\r\n"@,
    ) + response.body
}

/// Bytes that end in the encoding of a text, extended by that of another.
proof fn lemma_extend(start: Seq<u8>, text: Seq<char>, more: Seq<char>)
    ensures
        start + encode_utf8(text) + encode_utf8(more) == start + encode_utf8(text + more),
{
    lemma_encode_concat(text, more);
    assert(start + encode_utf8(text) + encode_utf8(more) =~= start + encode_utf8(text + more));
}

/// Appends the line that writes a header to `out`.
fn write_header(out: &mut Vec<u8>, name: &str, value: &str)
    ensures
        final(out)@ == old(out)@ + encode_utf8(header_line((name@, value@))),
{
    let ghost start = out@;
    push_text(out, name);
    push_text(out, ": ");
    push_text(out, value);
    push_text(out, "\r\n");
    proof {
        lemma_extend(start, name@, ": "@);
        lemma_extend(start, name@ + ": "@, value@);
        lemma_extend(start, name@ + ": "@ + value@, "\r\n"@);
    }
}

/// Appends the line that writes the length of a body to `out`.
fn write_content_length(out: &mut Vec<u8>, len: usize)
    ensures
        final(out)@ == old(out)@ + encode_utf8(
            header_line(("content-length"@, decimal(len as nat))),
        ),
{
    let ghost start = out@;
    push_text(out, "content-length");
    push_text(out, ": ");
    push_decimal(out, len);
    push_text(out, "\r\n");
    proof {
        lemma_extend(start, "content-length"@, ": "@);
        lemma_extend(start, "content-length"@ + ": "@, decimal(len as nat));
        lemma_extend(start, "content-length"@ + ": "@ + decimal(len as nat), "\r\n"@);
    }
}

/// The lines of some headers and of one more.
proof fn lemma_header_lines_push(headers: HeaderSeq, h: (Seq<char>, Seq<char>))
    ensures
        header_lines(headers.push(h)) == header_lines(headers) + header_line(h),
{
    assert(headers.push(h).drop_last() =~= headers);
}

/// Writes a request to `writer`, with a correct `Content-Length` for its body
/// in place of any that its headers hold.
pub fn write_request(writer: &mut Vec<u8>, req: &Request)
    ensures
        final(writer)@ == old(writer)@ + encode_request(req@),
{
    let ghost start = writer@;
    let ghost line = request_line(req@);
    let ghost model = req.headers.deep_view();
    push_text(writer, req.method.as_str());
    push_text(writer, " ");
    push_text(writer, req.path.as_str());
    push_text(writer, " HTTP/1.1\r\n");
    proof {
        lemma_extend(start, req.method@, " "@);
        lemma_extend(start, req.method@ + " "@, req.path@);
        lemma_extend(start, req.method@ + " "@ + req.path@, " HTTP/1.1\r\n"@);
        reveal(Seq::filter);
        assert(line + header_lines(kept_request_headers(model.take(0))) =~= line);
    }
    let mut i: usize = 0;
    while i < req.headers.len()
        invariant
            i <= req.headers@.len(),
            model == req.headers.deep_view(),
            writer@ == start + encode_utf8(
                line + header_lines(kept_request_headers(model.take(i as int))),
            ),
        decreases req.headers.len() - i,
    {
        let ghost kept = kept_request_headers(model.take(i as int));
        let ghost h = model[i as int];
        assert(h == (req.headers@[i as int].0@, req.headers@[i as int].1@));
        proof {
            reveal(Seq::filter);
            assert(model.take(i + 1).drop_last() =~= model.take(i as int));
        }
        if !eq_ignore_ascii_case(req.headers[i].0.as_str(), "content-length") {
            write_header(writer, req.headers[i].0.as_str(), req.headers[i].1.as_str());
            proof {
                lemma_extend(start, line + header_lines(kept), header_line(h));
                lemma_header_lines_push(kept, h);
                assert(line + header_lines(kept) + header_line(h) =~= line + header_lines(
                    kept.push(h),
                ));
            }
        }
        i = i + 1;
    }
    write_content_length(writer, req.body.len());
    push_text(writer, "\r\n");
    push_bytes(writer, req.body.as_slice());
    proof {
        assert(model.take(i as int) =~= model);
        let kept = kept_request_headers(model);
        let h = ("content-length"@, decimal(req.body@.len()));
        lemma_extend(start, line + header_lines(kept), header_line(h));
        lemma_header_lines_push(kept, h);
        assert(line + header_lines(kept) + header_line(h) =~= line + header_lines(kept.push(h)));
        lemma_extend(start, line + header_lines(kept.push(h)), "\r\n"@);
        assert(writer@ =~= start + encode_request(req@));
    }
}

/// Writes a response to `writer`. Its `Content-Length` and `Connection` are
/// correct and take the place of whatever its headers hold for those, and for
/// `Transfer-Encoding`.
pub fn write_response(writer: &mut Vec<u8>, resp: &Response)
    ensures
        final(writer)@ == old(writer)@ + encode_response(resp@),
{
    let ghost start = writer@;
    let ghost line = status_line(resp.status);
    let ghost model = resp.headers.deep_view();
    push_text(writer, "HTTP/1.1 ");
    push_decimal(writer, resp.status as usize);
    push_text(writer, " ");
    push_text(writer, reason_phrase(resp.status));
    push_text(writer, "\r\n");
    proof {
        let status = decimal(resp.status as nat);
        let reason = reason_for(resp.status);
        lemma_extend(start, "HTTP/1.1 "@, status);
        lemma_extend(start, "HTTP/1.1 "@ + status, " "@);
        lemma_extend(start, "HTTP/1.1 "@ + status + " "@, reason);
        lemma_extend(start, "HTTP/1.1 "@ + status + " "@ + reason, "\r\n"@);
        reveal(Seq::filter);
        assert(line + header_lines(kept_response_headers(model.take(0))) =~= line);
    }
    let mut i: usize = 0;
    while i < resp.headers.len()
        invariant
            i <= resp.headers@.len(),
            model == resp.headers.deep_view(),
            writer@ == start + encode_utf8(
                line + header_lines(kept_response_headers(model.take(i as int))),
            ),
        decreases resp.headers.len() - i,
    {
        let ghost kept = kept_response_headers(model.take(i as int));
        let ghost h = model[i as int];
        assert(h == (resp.headers@[i as int].0@, resp.headers@[i as int].1@));
        proof {
            reveal(Seq::filter);
            assert(model.take(i + 1).drop_last() =~= model.take(i as int));
        }
        let name = resp.headers[i].0.as_str();
        if !(eq_ignore_ascii_case(name, "content-length") || eq_ignore_ascii_case(
            name,
            "transfer-encoding",
        ) || eq_ignore_ascii_case(name, "connection")) {
            write_header(writer, name, resp.headers[i].1.as_str());
            proof {
                lemma_extend(start, line + header_lines(kept), header_line(h));
                lemma_header_lines_push(kept, h);
                assert(line + header_lines(kept) + header_line(h) =~= line + header_lines(
                    kept.push(h),
                ));
            }
        }
        i = i + 1;
    }
    write_content_length(writer, resp.body.len());
    write_header(writer, "connection", "close");
    push_text(writer, "\r\n");
    push_bytes(writer, resp.body.as_slice());
    proof {
        assert(model.take(i as int) =~= model);
        let kept = kept_response_headers(model);
        let h = ("content-length"@, decimal(resp.body@.len()));
        let close = ("connection"@, "close"@);
        lemma_extend(start, line + header_lines(kept), header_line(h));
        lemma_header_lines_push(kept, h);
        assert(line + header_lines(kept) + header_line(h) =~= line + header_lines(kept.push(h)));
        lemma_extend(start, line + header_lines(kept.push(h)), header_line(close));
        lemma_header_lines_push(kept.push(h), close);
        assert(line + header_lines(kept.push(h)) + header_line(close) =~= line + header_lines(
            kept.push(h).push(close),
        ));
        lemma_extend(start, line + header_lines(kept.push(h).push(close)), "\r\n"@);
        assert(writer@ =~= start + encode_response(resp@));
    }
}

} // verus!
