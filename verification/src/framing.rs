//! Where a message ends, and which header says so.
use vstd::prelude::*;
use vstd::string::*;

use crate::httpmsg::{
    content_length, encode_request, encode_response, header_lookup, headers_from,
    kept_request_headers, kept_response_headers, lemma_line_shrinks, request_from, response_from,
    HeaderSeq, RequestModel, ResponseModel,
};
use crate::reader::{lemma_newline_at, line_from};
use crate::search::{first_where, lemma_first_where, lemma_is_first_where, lemma_none_where};
use crate::text::{same_ignoring_case, without_line_end};

verus! {

/// Looking a header up does not depend on the case of the name.
pub proof fn law_header_lookup_ignores_case(headers: HeaderSeq, a: Seq<char>, b: Seq<char>)
    requires
        same_ignoring_case(a, b),
    ensures
        header_lookup(headers, a) == header_lookup(headers, b),
{
    let p = |h: (Seq<char>, Seq<char>)| same_ignoring_case(h.0, a);
    let q = |h: (Seq<char>, Seq<char>)| same_ignoring_case(h.0, b);
    lemma_first_where(headers, p);
    match first_where(headers, p) {
        Some(i) => {
            assert forall|j: int| 0 <= j < i implies !q(#[trigger] headers[j]) by {
                assert(!p(headers[j]));
            }
            lemma_is_first_where(headers, q, i);
        },
        None => {
            assert forall|j: int| 0 <= j < headers.len() implies !q(#[trigger] headers[j]) by {
                assert(!p(headers[j]));
            }
            lemma_none_where(headers, q);
        },
    }
}

/// The header found is the first of its name, and it is found where there is
/// one.
pub proof fn law_header_lookup_finds_the_first(headers: HeaderSeq, name: Seq<char>)
    ensures
        match header_lookup(headers, name) {
            Some(value) => exists|i: int|
                0 <= i < headers.len() && (#[trigger] headers[i]).1 == value && same_ignoring_case(
                    headers[i].0,
                    name,
                ) && forall|j: int|
                    0 <= j < i ==> !same_ignoring_case((#[trigger] headers[j]).0, name),
            None => forall|j: int|
                0 <= j < headers.len() ==> !same_ignoring_case((#[trigger] headers[j]).0, name),
        },
{
    let p = |h: (Seq<char>, Seq<char>)| same_ignoring_case(h.0, name);
    lemma_first_where(headers, p);
    match first_where(headers, p) {
        Some(i) => {
            assert forall|j: int| 0 <= j < i implies !same_ignoring_case(
                (#[trigger] headers[j]).0,
                name,
            ) by {
                assert(!p(headers[j]));
            }
            assert(headers[i].1 == headers[i].1);
        },
        None => {
            assert forall|j: int| 0 <= j < headers.len() implies !same_ignoring_case(
                (#[trigger] headers[j]).0,
                name,
            ) by {
                assert(!p(headers[j]));
            }
        },
    }
}

/// What the headers of a request say of its length does not matter when it is
/// written.
pub proof fn law_stale_request_length_is_ignored(a: RequestModel, b: RequestModel)
    requires
        a.method == b.method,
        a.path == b.path,
        a.body == b.body,
        kept_request_headers(a.headers) == kept_request_headers(b.headers),
    ensures
        encode_request(a) == encode_request(b),
{
}

/// What the headers of a response say of its framing does not matter when it is
/// written.
pub proof fn law_stale_response_framing_is_ignored(a: ResponseModel, b: ResponseModel)
    requires
        a.status == b.status,
        a.body == b.body,
        kept_response_headers(a.headers) == kept_response_headers(b.headers),
    ensures
        encode_response(a) == encode_response(b),
{
}

proof fn lemma_line_leaves_suffix(s: Seq<u8>, closed: bool)
    ensures
        line_from(s, closed) matches Ok((_, rest)) ==> rest.len() <= s.len() && rest == s.skip(
            s.len() - rest.len(),
        ),
{
    lemma_newline_at(s);
}

proof fn lemma_headers_leave_suffix(s: Seq<u8>, closed: bool)
    ensures
        headers_from(s, closed) matches Ok((_, rest)) ==> rest.len() <= s.len() && rest == s.skip(
            s.len() - rest.len(),
        ),
    decreases s.len(),
{
    lemma_line_leaves_suffix(s, closed);
    lemma_line_shrinks(s, closed);
    if let Ok((line, after)) = line_from(s, closed) {
        if without_line_end(line).len() > 0 {
            lemma_headers_leave_suffix(after, closed);
            if let Ok((headers, rest)) = headers_from(s, closed) {
                assert(after.skip(after.len() - rest.len()) =~= s.skip(s.len() - rest.len()));
            }
        }
    }
}

/// A request is read from the front: what is left is the end of what was there.
/// Its body is as long as the headers declare, and empty where they do not.
pub proof fn law_request_framing(s: Seq<u8>, closed: bool)
    ensures
        request_from(s, closed) matches Ok((request, rest)) ==> {
            &&& rest.len() + request.body.len() <= s.len()
            &&& rest == s.skip(s.len() - rest.len())
            &&& content_length(request.headers) is None ==> request.body.len() == 0
            &&& content_length(request.headers) matches Some(n) ==> request.body.len() == n
                && request.body == s.subrange(s.len() - rest.len() - n, s.len() - rest.len())
        },
{
    if let Ok((line, after_line)) = line_from(s, closed) {
        lemma_line_leaves_suffix(s, closed);
        lemma_headers_leave_suffix(after_line, closed);
        if let Ok((request, rest)) = request_from(s, closed) {
            let n = request.body.len() as int;
            assert(rest =~= s.skip(s.len() - rest.len()));
            assert(request.body =~= s.subrange(s.len() - rest.len() - n, s.len() - rest.len()));
        }
    }
}

/// A response is read from the front: what is left is the end of what was
/// there. Its body is as long as the headers declare; where they do not, it is
/// all that came until the connection ended.
pub proof fn law_response_framing(s: Seq<u8>, closed: bool)
    ensures
        response_from(s, closed) matches Ok((response, rest)) ==> {
            &&& rest.len() + response.body.len() <= s.len()
            &&& rest == s.skip(s.len() - rest.len())
            &&& response.body == s.subrange(
                s.len() - rest.len() - response.body.len(),
                s.len() - rest.len(),
            )
            &&& content_length(response.headers) is None ==> closed && rest.len() == 0
            &&& content_length(response.headers) matches Some(n) ==> response.body.len() == n
        },
{
    if let Ok((line, after_line)) = line_from(s, closed) {
        lemma_line_leaves_suffix(s, closed);
        lemma_headers_leave_suffix(after_line, closed);
        if let Ok((response, rest)) = response_from(s, closed) {
            let n = response.body.len() as int;
            assert(rest =~= s.skip(s.len() - rest.len()));
            assert(response.body =~= s.subrange(s.len() - rest.len() - n, s.len() - rest.len()));
        }
    }
}

} // verus!
