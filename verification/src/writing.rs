//! What is written of a message, byte for byte, and what the peer reads of it.
use vstd::prelude::*;
use vstd::string::*;
use vstd::utf8::*;

use crate::httpmsg::{
    encode_request, encode_response, frames_response, header_line, header_lines,
    kept_request_headers, kept_response_headers, reason_for, request_from, request_line,
    response_from, sent_request_headers, sent_response_headers, status_line, HeaderSeq,
    RequestModel, ResponseModel,
};
use crate::reading::{lemma_header_lines, lemma_one_line};
use crate::round_trip::{fits_line, law_request_round_trip, law_response_round_trip};
use crate::text::{decimal, is_white_space, same_ignoring_case, trimmed};

verus! {

proof fn lemma_same_filter<A>(s: Seq<A>, p: spec_fn(A) -> bool, q: spec_fn(A) -> bool)
    requires
        forall|a: A| #[trigger] p(a) == q(a),
    ensures
        s.filter(p) == s.filter(q),
    decreases s.len(),
{
    reveal(Seq::filter);
    if s.len() > 0 {
        lemma_same_filter(s.drop_last(), p, q);
        assert(p(s.last()) == q(s.last()));
    }
}

proof fn lemma_filter_keeps_all<A>(s: Seq<A>, p: spec_fn(A) -> bool)
    requires
        forall|i: int| 0 <= i < s.len() ==> p(#[trigger] s[i]),
    ensures
        s.filter(p) == s,
    decreases s.len(),
{
    reveal(Seq::filter);
    if s.len() > 0 {
        let front = s.drop_last();
        assert forall|i: int| 0 <= i < front.len() implies p(#[trigger] front[i]) by {
            assert(s[i] == front[i]);
        }
        lemma_filter_keeps_all(front, p);
        assert(p(s[s.len() - 1]));
        assert(front.push(s.last()) =~= s);
    }
}

/// Items that pass a filter have what each passing item of the sequence has.
proof fn lemma_filter_all<A>(s: Seq<A>, p: spec_fn(A) -> bool, q: spec_fn(A) -> bool)
    requires
        forall|i: int| 0 <= i < s.len() && p(#[trigger] s[i]) ==> q(s[i]),
    ensures
        forall|i: int| 0 <= i < s.filter(p).len() ==> q(#[trigger] s.filter(p)[i]),
    decreases s.len(),
{
    reveal(Seq::filter);
    if s.len() > 0 {
        let front = s.drop_last();
        assert forall|i: int| 0 <= i < front.len() && p(#[trigger] front[i]) implies q(
            front[i],
        ) by {
            assert(s[i] == front[i]);
        }
        lemma_filter_all(front, p, q);
        assert forall|i: int| 0 <= i < s.filter(p).len() implies q(#[trigger] s.filter(p)[i]) by {
            if i < front.filter(p).len() {
                assert(s.filter(p)[i] == front.filter(p)[i]);
            } else {
                assert(s.filter(p)[i] == s[s.len() - 1]);
            }
        }
    }
}

/// The phrases that go with statuses. Any other status has none of its own.
pub proof fn law_reason_phrase(status: u16)
    ensures
        reason_for(200) == "OK"@,
        reason_for(201) == "Created"@,
        reason_for(204) == "No Content"@,
        reason_for(301) == "Moved Permanently"@,
        reason_for(302) == "Found"@,
        reason_for(304) == "Not Modified"@,
        reason_for(400) == "Bad Request"@,
        reason_for(401) == "Unauthorized"@,
        reason_for(403) == "Forbidden"@,
        reason_for(404) == "Not Found"@,
        reason_for(500) == "Internal Server Error"@,
        reason_for(502) == "Bad Gateway"@,
        reason_for(503) == "Service Unavailable"@,
        !set![
            200u16, 201u16, 204u16, 301u16, 302u16, 304u16, 400u16, 401u16, 403u16, 404u16, 500u16,
            502u16, 503u16,
        ].contains(status) ==> reason_for(status) == "Unknown"@,
{
}

/// A request is written as its method and path on a line, every header but a
/// `Content-Length` on a line of its own, in order and unchanged, the length of
/// its body, an empty line, and its body.
pub proof fn law_request_bytes(request: RequestModel)
    ensures
        encode_request(request) == encode_utf8(
            request.method + " "@ + request.path + " HTTP/1.1\r\n"@ + request.headers.filter(
                |h: (Seq<char>, Seq<char>)| !same_ignoring_case(h.0, "content-length"@),
            ).flat_map(|h: (Seq<char>, Seq<char>)| h.0 + ": "@ + h.1 + "\r\n"@)
                + "content-length: "@ + decimal(request.body.len()) + "\r\n\r\n"@,
        ) + request.body,
{
    reveal_strlit("content-length: ");
    reveal_strlit("content-length");
    reveal_strlit(": ");
    reveal_strlit("\r\n\r\n");
    reveal_strlit("\r\n");
    let p = |h: (Seq<char>, Seq<char>)| !same_ignoring_case(h.0, "content-length"@);
    let kept = kept_request_headers(request.headers);
    let sent = sent_request_headers(request);
    let length = ("content-length"@, decimal(request.body.len()));
    lemma_same_filter(
        request.headers,
        |h: (Seq<char>, Seq<char>)| !same_ignoring_case(h.0, "content-length"@),
        p,
    );
    lemma_header_lines(kept);
    assert(sent.drop_last() =~= kept);
    assert("content-length: "@ =~= "content-length"@ + ": "@);
    assert("\r\n\r\n"@ =~= "\r\n"@ + "\r\n"@);
    assert(request_line(request) + header_lines(sent) + "\r\n"@ =~= request.method + " "@
        + request.path + " HTTP/1.1\r\n"@ + header_lines(kept) + "content-length: "@ + length.1
        + "\r\n\r\n"@);
}

/// A response is written as its status and the phrase that goes with it on a
/// line, every header but those that frame it on a line of its own, in order and
/// unchanged, the length of its body, that the connection ends, an empty line,
/// and its body. `Content-Length`, `Transfer-Encoding` and `Connection` frame a
/// response, and no other header does.
pub proof fn law_response_bytes(response: ResponseModel)
    ensures
        encode_response(response) == encode_utf8(
            "HTTP/1.1 "@ + decimal(response.status as nat) + " "@ + reason_for(response.status)
                + "\r\n"@ + response.headers.filter(
                |h: (Seq<char>, Seq<char>)|
                    !same_ignoring_case(h.0, "content-length"@) && !same_ignoring_case(
                        h.0,
                        "transfer-encoding"@,
                    ) && !same_ignoring_case(h.0, "connection"@),
            ).flat_map(|h: (Seq<char>, Seq<char>)| h.0 + ": "@ + h.1 + "\r\n"@)
                + "content-length: "@ + decimal(response.body.len())
                + "\r\nconnection: close\r\n\r\n"@,
        ) + response.body,
{
    reveal_strlit("content-length: ");
    reveal_strlit("content-length");
    reveal_strlit("connection");
    reveal_strlit("close");
    reveal_strlit(": ");
    reveal_strlit("\r\nconnection: close\r\n\r\n");
    reveal_strlit("\r\n");
    let p = |h: (Seq<char>, Seq<char>)|
        !same_ignoring_case(h.0, "content-length"@) && !same_ignoring_case(
            h.0,
            "transfer-encoding"@,
        ) && !same_ignoring_case(h.0, "connection"@);
    let kept = kept_response_headers(response.headers);
    let sent = sent_response_headers(response);
    let len = decimal(response.body.len());
    let length = ("content-length"@, len);
    let close = ("connection"@, "close"@);
    lemma_same_filter(
        response.headers,
        |h: (Seq<char>, Seq<char>)| !frames_response(h.0),
        p,
    );
    lemma_header_lines(kept);
    assert(sent.drop_last() =~= kept.push(length));
    assert(kept.push(length).drop_last() =~= kept);
    assert(header_lines(kept.push(length)) == header_lines(kept) + header_line(length));
    assert(header_lines(sent) == header_lines(kept) + header_line(length) + header_line(close));
    assert("content-length: "@ =~= "content-length"@ + ": "@);
    assert("\r\nconnection: close\r\n\r\n"@ =~= "\r\n"@ + ("connection"@ + ": "@ + "close"@
        + "\r\n"@) + "\r\n"@);
    assert(status_line(response.status) + header_lines(sent) + "\r\n"@ =~= "HTTP/1.1 "@ + decimal(
        response.status as nat,
    ) + " "@ + reason_for(response.status) + "\r\n"@ + header_lines(kept) + "content-length: "@
        + len + "\r\nconnection: close\r\n\r\n"@);
}

/// A `Content-Length` among the headers of a request makes no difference to what
/// is written.
pub proof fn law_length_of_request_is_replaced(
    request: RequestModel,
    before: HeaderSeq,
    h: (Seq<char>, Seq<char>),
    after: HeaderSeq,
)
    requires
        same_ignoring_case(h.0, "content-length"@),
    ensures
        encode_request(RequestModel { headers: before + seq![h] + after, ..request })
            == encode_request(RequestModel { headers: before + after, ..request }),
{
    let p = |h: (Seq<char>, Seq<char>)| !same_ignoring_case(h.0, "content-length"@);
    lemma_filter_skips(before, h, after, p);
}

/// A `Content-Length`, a `Transfer-Encoding` or a `Connection` among the headers
/// of a response makes no difference to what is written.
pub proof fn law_framing_of_response_is_replaced(
    response: ResponseModel,
    before: HeaderSeq,
    h: (Seq<char>, Seq<char>),
    after: HeaderSeq,
)
    requires
        same_ignoring_case(h.0, "content-length"@) || same_ignoring_case(h.0, "transfer-encoding"@)
            || same_ignoring_case(h.0, "connection"@),
    ensures
        encode_response(ResponseModel { headers: before + seq![h] + after, ..response })
            == encode_response(ResponseModel { headers: before + after, ..response }),
{
    let p = |h: (Seq<char>, Seq<char>)| !frames_response(h.0);
    lemma_filter_skips(before, h, after, p);
}

proof fn lemma_filter_skips<A>(before: Seq<A>, a: A, after: Seq<A>, p: spec_fn(A) -> bool)
    requires
        !p(a),
    ensures
        (before + seq![a] + after).filter(p) == (before + after).filter(p),
{
    Seq::filter_distributes_over_add(before + seq![a], after, p);
    Seq::filter_distributes_over_add(before, seq![a], p);
    Seq::filter_distributes_over_add(before, after, p);
    assert(seq![a].filter(p) =~= Seq::empty()) by {
        Seq::<A>::empty().lemma_filter_prepend(a, p);
        Seq::<A>::empty().lemma_filter_len(p);
        assert(seq![a] + Seq::<A>::empty() =~= seq![a]);
    }
    assert(before.filter(p) + Seq::empty() =~= before.filter(p));
}

/// The real server reads of a written request every header but a
/// `Content-Length`, with its value, in order and as often as it stood there,
/// and after them the length of the body. Where the request has no
/// `Content-Length`, it reads all of its headers.
pub proof fn law_server_reads_every_header(request: RequestModel, tail: Seq<u8>, closed: bool)
    requires
        request.method.len() > 0 && request.path.len() > 0,
        forall|k: int|
            0 <= k < request.method.len() ==> !is_white_space(#[trigger] request.method[k]),
        forall|k: int| 0 <= k < request.path.len() ==> !is_white_space(#[trigger] request.path[k]),
        forall|k: int|
            0 <= k < request.headers.len() && !same_ignoring_case(
                (#[trigger] request.headers[k]).0,
                "content-length"@,
            ) ==> {
                &&& trimmed(request.headers[k].0) == request.headers[k].0
                &&& trimmed(request.headers[k].1) == request.headers[k].1
                &&& !request.headers[k].0.contains('\n') && !request.headers[k].0.contains(':')
                &&& !request.headers[k].1.contains('\n')
            },
        request.body.len() <= isize::MAX,
    ensures
        request_from(encode_request(request) + tail, closed) matches Ok((read, rest)) && {
            &&& read.method == request.method
            &&& read.path == request.path
            &&& read.body == request.body
            &&& rest == tail
            &&& read.headers == request.headers.filter(
                |h: (Seq<char>, Seq<char>)| !same_ignoring_case(h.0, "content-length"@),
            ).push(("content-length"@, decimal(request.body.len())))
            &&& (forall|k: int|
                0 <= k < request.headers.len() ==> !same_ignoring_case(
                    (#[trigger] request.headers[k]).0,
                    "content-length"@,
                )) ==> read.headers == request.headers.push(
                ("content-length"@, decimal(request.body.len())),
            )
        },
{
    let headers = request.headers;
    let p = |h: (Seq<char>, Seq<char>)| !same_ignoring_case(h.0, "content-length"@);
    let q = |h: (Seq<char>, Seq<char>)| fits_line(h);
    assert forall|k: int| 0 <= k < headers.len() && p(#[trigger] headers[k]) implies q(
        headers[k],
    ) by {
        lemma_header_fits(headers[k]);
    }
    lemma_filter_all(headers, p, q);
    let kept = kept_request_headers(headers);
    assert forall|k: int| 0 <= k < kept.len() implies fits_line(#[trigger] kept[k]) by {
        assert(q(kept[k]));
    }
    law_request_round_trip(request, tail, closed);
    if forall|k: int|
        0 <= k < headers.len() ==> !same_ignoring_case(
            (#[trigger] headers[k]).0,
            "content-length"@,
        ) {
        assert forall|k: int| 0 <= k < headers.len() implies p(#[trigger] headers[k]) by {}
        lemma_filter_keeps_all(headers, p);
    }
}

proof fn lemma_header_fits(h: (Seq<char>, Seq<char>))
    requires
        trimmed(h.0) == h.0,
        trimmed(h.1) == h.1,
        !h.0.contains('\n'),
        !h.0.contains(':'),
        !h.1.contains('\n'),
    ensures
        fits_line(h),
{
    lemma_one_line(h.0);
    lemma_one_line(h.1);
    assert forall|i: int| 0 <= i < h.0.len() implies #[trigger] h.0[i] != ':' by {
        assert(h.0.contains(h.0[i]));
    }
}

/// The client reads of a written response every header but a `Content-Length`, a
/// `Transfer-Encoding` and a `Connection`, with its value, in order and as often
/// as it stood there, and after them the length of the body and that the
/// connection ends. Where the response has none of the three, it reads all of
/// its headers.
pub proof fn law_client_reads_every_header(response: ResponseModel, tail: Seq<u8>, closed: bool)
    requires
        forall|k: int|
            0 <= k < response.headers.len() && !same_ignoring_case(
                (#[trigger] response.headers[k]).0,
                "content-length"@,
            ) && !same_ignoring_case(response.headers[k].0, "transfer-encoding"@)
                && !same_ignoring_case(response.headers[k].0, "connection"@) ==> {
                &&& trimmed(response.headers[k].0) == response.headers[k].0
                &&& trimmed(response.headers[k].1) == response.headers[k].1
                &&& !response.headers[k].0.contains('\n') && !response.headers[k].0.contains(':')
                &&& !response.headers[k].1.contains('\n')
            },
        response.body.len() <= isize::MAX,
    ensures
        response_from(encode_response(response) + tail, closed) matches Ok((read, rest)) && {
            &&& read.status == response.status
            &&& read.body == response.body
            &&& rest == tail
            &&& read.headers == response.headers.filter(
                |h: (Seq<char>, Seq<char>)|
                    !same_ignoring_case(h.0, "content-length"@) && !same_ignoring_case(
                        h.0,
                        "transfer-encoding"@,
                    ) && !same_ignoring_case(h.0, "connection"@),
            ).push(("content-length"@, decimal(response.body.len()))).push(
                ("connection"@, "close"@),
            )
            &&& (forall|k: int|
                0 <= k < response.headers.len() ==> !same_ignoring_case(
                    (#[trigger] response.headers[k]).0,
                    "content-length"@,
                ) && !same_ignoring_case(response.headers[k].0, "transfer-encoding"@)
                    && !same_ignoring_case(response.headers[k].0, "connection"@))
                ==> read.headers == response.headers.push(
                ("content-length"@, decimal(response.body.len())),
            ).push(("connection"@, "close"@))
        },
{
    let headers = response.headers;
    let p = |h: (Seq<char>, Seq<char>)|
        !same_ignoring_case(h.0, "content-length"@) && !same_ignoring_case(
            h.0,
            "transfer-encoding"@,
        ) && !same_ignoring_case(h.0, "connection"@);
    let q = |h: (Seq<char>, Seq<char>)| fits_line(h);
    lemma_same_filter(headers, |h: (Seq<char>, Seq<char>)| !frames_response(h.0), p);
    assert forall|k: int| 0 <= k < headers.len() && p(#[trigger] headers[k]) implies q(
        headers[k],
    ) by {
        lemma_header_fits(headers[k]);
    }
    lemma_filter_all(headers, p, q);
    let kept = kept_response_headers(headers);
    assert(kept == headers.filter(p));
    assert forall|k: int| 0 <= k < kept.len() implies fits_line(#[trigger] kept[k]) by {
        assert(q(headers.filter(p)[k]));
    }
    law_response_round_trip(response, tail, closed);
    if forall|k: int|
        0 <= k < headers.len() ==> !same_ignoring_case(
            (#[trigger] headers[k]).0,
            "content-length"@,
        ) && !same_ignoring_case(headers[k].0, "transfer-encoding"@) && !same_ignoring_case(
            headers[k].0,
            "connection"@,
        ) {
        assert forall|k: int| 0 <= k < headers.len() implies p(#[trigger] headers[k]) by {}
        lemma_filter_keeps_all(headers, p);
    }
}

} // verus!
