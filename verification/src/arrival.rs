//! Messages that arrive in pieces: what is read of them does not depend on how
//! the connection cut them up.
use vstd::prelude::*;
use vstd::utf8::*;

use crate::httpmsg::{
    content_length, headers_from, lemma_line_shrinks, request_from, response_from, sized_body_from,
    HeaderSeq, RequestModel, ResponseModel,
};
use crate::reader::{lemma_is_newline_at, lemma_newline_at, line_from, newline_at, ReadError};
use crate::text::without_line_end;

verus! {

/// A line that is decided stays so, whatever follows.
proof fn lemma_line_stays(s: Seq<u8>, more: Seq<u8>, closed: bool)
    ensures
        match line_from(s, false) {
            Ok((line, rest)) => line_from(s + more, closed) == Ok::<
                (Seq<char>, Seq<u8>),
                ReadError,
            >((line, rest + more)),
            Err(ReadError::Incomplete) => true,
            Err(e) => line_from(s + more, closed) == Err::<(Seq<char>, Seq<u8>), ReadError>(e),
        },
{
    lemma_newline_at(s);
    let n = newline_at(s) as int;
    if n < s.len() {
        assert((s + more)[n] == s[n]);
        assert forall|i: int| 0 <= i < n implies #[trigger] (s + more)[i] != 10u8 by {
            assert(s[i] != 10u8);
        }
        lemma_is_newline_at(s + more, n);
        assert((s + more).take(n + 1) =~= s.take(n + 1));
        assert((s + more).skip(n + 1) =~= s.skip(n + 1) + more);
    }
}

/// Headers that are decided stay so, whatever follows.
proof fn lemma_headers_stay(s: Seq<u8>, more: Seq<u8>, closed: bool)
    ensures
        match headers_from(s, false) {
            Ok((headers, rest)) => headers_from(s + more, closed) == Ok::<
                (HeaderSeq, Seq<u8>),
                ReadError,
            >((headers, rest + more)),
            Err(ReadError::Incomplete) => true,
            Err(e) => headers_from(s + more, closed) == Err::<(HeaderSeq, Seq<u8>), ReadError>(e),
        },
    decreases s.len(),
{
    lemma_line_stays(s, more, closed);
    if let Ok((line, rest)) = line_from(s, false) {
        if without_line_end(line).len() > 0 {
            lemma_line_shrinks(s, false);
            lemma_headers_stay(rest, more, closed);
        }
    }
}

proof fn lemma_sized_body_stays(s: Seq<u8>, more: Seq<u8>, closed: bool, len: nat)
    ensures
        match sized_body_from(s, false, len) {
            Ok((body, rest)) => sized_body_from(s + more, closed, len) == Ok::<
                (Seq<u8>, Seq<u8>),
                ReadError,
            >((body, rest + more)),
            Err(ReadError::Incomplete) => true,
            Err(e) => sized_body_from(s + more, closed, len) == Err::<
                (Seq<u8>, Seq<u8>),
                ReadError,
            >(e),
        },
{
    if len <= s.len() {
        assert((s + more).take(len as int) =~= s.take(len as int));
        assert((s + more).skip(len as int) =~= s.skip(len as int) + more);
    }
}

/// Once a request can be read, or is known not to be one, what arrives later
/// does not change that: it is left unread.
pub proof fn law_request_is_not_revised(s: Seq<u8>, more: Seq<u8>, closed: bool)
    ensures
        match request_from(s, false) {
            Ok((request, rest)) => request_from(s + more, closed) == Ok::<
                (RequestModel, Seq<u8>),
                ReadError,
            >((request, rest + more)),
            Err(ReadError::Incomplete) => true,
            Err(e) => request_from(s + more, closed) == Err::<(RequestModel, Seq<u8>), ReadError>(
                e,
            ),
        },
{
    lemma_line_stays(s, more, closed);
    if let Ok((line, after_line)) = line_from(s, false) {
        lemma_headers_stay(after_line, more, closed);
        if let Ok((headers, after_head)) = headers_from(after_line, false) {
            if let Some(len) = content_length(headers) {
                lemma_sized_body_stays(after_head, more, closed, len);
            }
        }
    }
}

/// Once a response can be read, or is known not to be one, what arrives later
/// does not change that: it is left unread.
pub proof fn law_response_is_not_revised(s: Seq<u8>, more: Seq<u8>, closed: bool)
    ensures
        match response_from(s, false) {
            Ok((response, rest)) => response_from(s + more, closed) == Ok::<
                (ResponseModel, Seq<u8>),
                ReadError,
            >((response, rest + more)),
            Err(ReadError::Incomplete) => true,
            Err(e) => response_from(s + more, closed) == Err::<
                (ResponseModel, Seq<u8>),
                ReadError,
            >(e),
        },
{
    lemma_line_stays(s, more, closed);
    if let Ok((line, after_line)) = line_from(s, false) {
        lemma_headers_stay(after_line, more, closed);
        if let Ok((headers, after_head)) = headers_from(after_line, false) {
            if let Some(len) = content_length(headers) {
                lemma_sized_body_stays(after_head, more, closed, len);
            }
        }
    }
}

proof fn lemma_headers_decided(s: Seq<u8>)
    ensures
        headers_from(s, true) != Err::<(HeaderSeq, Seq<u8>), ReadError>(ReadError::Incomplete),
    decreases s.len(),
{
    if let Ok((line, rest)) = line_from(s, true) {
        if without_line_end(line).len() > 0 {
            lemma_line_shrinks(s, true);
            lemma_headers_decided(rest);
        }
    }
}

/// Once the connection has ended, a request is read or refused: there is
/// nothing left to wait for.
pub proof fn law_ended_request_is_decided(s: Seq<u8>)
    ensures
        request_from(s, true) != Err::<(RequestModel, Seq<u8>), ReadError>(ReadError::Incomplete),
{
    if let Ok((line, after_line)) = line_from(s, true) {
        lemma_headers_decided(after_line);
    }
}

/// Once the connection has ended, a response is read or refused: there is
/// nothing left to wait for.
pub proof fn law_ended_response_is_decided(s: Seq<u8>)
    ensures
        response_from(s, true) != Err::<(ResponseModel, Seq<u8>), ReadError>(
            ReadError::Incomplete,
        ),
{
    if let Ok((line, after_line)) = line_from(s, true) {
        lemma_headers_decided(after_line);
    }
}

/// All that arrived, in order.
pub open spec fn all_of(chunks: Seq<Seq<u8>>) -> Seq<u8>
    decreases chunks.len(),
{
    if chunks.len() == 0 {
        Seq::empty()
    } else {
        chunks.first() + all_of(chunks.drop_first())
    }
}

/// The request that is read when chunks arrive after `seen`, and the connection
/// ends after the last: reading is tried after each, until it is decided.
pub open spec fn request_in_chunks(seen: Seq<u8>, chunks: Seq<Seq<u8>>) -> Result<
    RequestModel,
    ReadError,
>
    decreases chunks.len(),
{
    let arrived = if chunks.len() == 0 {
        seen
    } else {
        seen + chunks.first()
    };
    match request_from(arrived, chunks.len() == 0) {
        Ok((request, _)) => Ok(request),
        Err(ReadError::Incomplete) => if chunks.len() == 0 {
            Err(ReadError::Incomplete)
        } else {
            request_in_chunks(arrived, chunks.drop_first())
        },
        Err(e) => Err(e),
    }
}

/// The response that is read when chunks arrive after `seen`, and the
/// connection ends after the last: reading is tried after each, until it is
/// decided.
pub open spec fn response_in_chunks(seen: Seq<u8>, chunks: Seq<Seq<u8>>) -> Result<
    ResponseModel,
    ReadError,
>
    decreases chunks.len(),
{
    let arrived = if chunks.len() == 0 {
        seen
    } else {
        seen + chunks.first()
    };
    match response_from(arrived, chunks.len() == 0) {
        Ok((response, _)) => Ok(response),
        Err(ReadError::Incomplete) => if chunks.len() == 0 {
            Err(ReadError::Incomplete)
        } else {
            response_in_chunks(arrived, chunks.drop_first())
        },
        Err(e) => Err(e),
    }
}

/// However a request is cut into chunks, it is read as if it had arrived at
/// once.
pub proof fn law_request_chunks_do_not_matter(seen: Seq<u8>, chunks: Seq<Seq<u8>>)
    ensures
        request_in_chunks(seen, chunks) == match request_from(seen + all_of(chunks), true) {
            Ok((request, _)) => Ok::<RequestModel, ReadError>(request),
            Err(e) => Err(e),
        },
    decreases chunks.len(),
{
    if chunks.len() == 0 {
        assert(seen + all_of(chunks) =~= seen);
    } else {
        let arrived = seen + chunks.first();
        let later = all_of(chunks.drop_first());
        law_request_is_not_revised(arrived, later, true);
        law_request_chunks_do_not_matter(arrived, chunks.drop_first());
        assert(seen + all_of(chunks) =~= arrived + later);
    }
}

/// However a response is cut into chunks, it is read as if it had arrived at
/// once.
pub proof fn law_response_chunks_do_not_matter(seen: Seq<u8>, chunks: Seq<Seq<u8>>)
    ensures
        response_in_chunks(seen, chunks) == match response_from(seen + all_of(chunks), true) {
            Ok((response, _)) => Ok::<ResponseModel, ReadError>(response),
            Err(e) => Err(e),
        },
    decreases chunks.len(),
{
    if chunks.len() == 0 {
        assert(seen + all_of(chunks) =~= seen);
    } else {
        let arrived = seen + chunks.first();
        let later = all_of(chunks.drop_first());
        law_response_is_not_revised(arrived, later, true);
        law_response_chunks_do_not_matter(arrived, chunks.drop_first());
        assert(seen + all_of(chunks) =~= arrived + later);
    }
}

} // verus!
