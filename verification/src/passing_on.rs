//! What is read of one connection can be passed on over another: the messages
//! that reading gives are ones that writing keeps.
use vstd::prelude::*;
use vstd::string::*;
use vstd::utf8::*;

use crate::httpmsg::{
    encode_request, encode_response, header_in, header_lines, headers_from, kept_request_headers,
    kept_response_headers, lemma_line_shrinks, request_from, request_line, response_from,
    sent_request_headers, sent_response_headers, HeaderSeq, RequestModel, ResponseModel,
};
use crate::reader::{lemma_newline_at, line_from, line_len, newline_at, ReadError};
use crate::round_trip::{
    all_fit_lines, fits_line, is_word, law_request_round_trip, law_response_round_trip,
    lemma_line_reads_back, lemma_trim_end_is_prefix, lemma_trimmed_already, lemma_words_cons,
    readable_request, readable_response,
};
use crate::text::{
    is_line_end, is_white_space, lemma_word_len, run_before, split_at_first, trim_end_where,
    trim_start_where, trimmed, without_line_end, word_len, words,
};
use crate::utf8_text::{lemma_encode_ascii, lemma_encode_concat, one_line};

verus! {

/// A text that is encoded without a newline byte has no newline.
proof fn lemma_no_newline_byte(s: Seq<char>)
    requires
        forall|i: int| 0 <= i < encode_utf8(s).len() ==> #[trigger] encode_utf8(s)[i] != 10u8,
    ensures
        one_line(s),
    decreases s.len(),
{
    if s.len() > 0 {
        let head = seq![s[0]];
        let tail = s.drop_first();
        let all = encode_utf8(s);
        assert(s =~= head + tail);
        lemma_encode_concat(head, tail);
        if s[0] == '\n' {
            lemma_encode_ascii('\n');
            assert(all[0] == 10u8);
        }
        assert forall|i: int| 0 <= i < encode_utf8(tail).len() implies #[trigger] encode_utf8(
            tail,
        )[i] != 10u8 by {
            assert(all[i + encode_utf8(head).len()] == encode_utf8(tail)[i]);
        }
        lemma_no_newline_byte(tail);
        assert forall|i: int| 0 <= i < s.len() implies #[trigger] s[i] != '\n' by {
            if i > 0 {
                assert(s[i] == tail[i - 1]);
            }
        }
    }
}

/// What a line says, without its end, holds no newline.
proof fn lemma_line_is_one_line(s: Seq<u8>, closed: bool)
    ensures
        line_from(s, closed) matches Ok((line, _)) ==> one_line(without_line_end(line)),
{
    if let Ok((line, rest)) = line_from(s, closed) {
        lemma_newline_at(s);
        let n = newline_at(s) as int;
        let whole = s.take(line_len(s) as int);
        let part = s.take(n);
        if n < s.len() {
            assert(whole.subrange(0, n) =~= part);
            assert(whole.subrange(n, n + 1) =~= seq![10u8]);
            assert(!is_continuation_byte(whole[n]));
            is_char_boundary_iff_not_is_continuation_byte(whole, n);
            valid_utf8_split(whole, n);
            decode_utf8_split(whole, n);
            lemma_encode_ascii('\n');
            encode_utf8_decode_utf8(seq!['\n']);
            assert(line =~= decode_utf8(part) + seq!['\n']);
            assert(line.drop_last() =~= decode_utf8(part));
        } else {
            assert(whole =~= part);
        }
        let text = decode_utf8(part);
        decode_utf8_encode_utf8(part);
        assert forall|i: int| 0 <= i < encode_utf8(text).len() implies #[trigger] encode_utf8(
            text,
        )[i] != 10u8 by {
            assert(part[i] == s[i]);
        }
        lemma_no_newline_byte(text);
        let p = |c: char| is_line_end(c);
        lemma_trim_end_is_prefix(text, p);
        assert(without_line_end(line) == without_line_end(text));
    }
}

proof fn lemma_trim_start_is_suffix(s: Seq<char>, p: spec_fn(char) -> bool)
    ensures
        trim_start_where(s, p).len() <= s.len(),
        trim_start_where(s, p) == s.skip(s.len() - trim_start_where(s, p).len()),
        trim_start_where(s, p).len() > 0 ==> !p(trim_start_where(s, p).first()),
    decreases s.len(),
{
    if s.len() > 0 && p(s.first()) {
        lemma_trim_start_is_suffix(s.drop_first(), p);
        let n = trim_start_where(s, p).len() as int;
        assert(s.drop_first().skip(s.len() - 1 - n) =~= s.skip(s.len() - n));
    } else {
        assert(s.skip(0) =~= s);
    }
}

/// A trimmed text is a stretch of the text, and has no white space at its ends.
proof fn lemma_trimmed(s: Seq<char>)
    ensures
        trimmed(trimmed(s)) == trimmed(s),
        exists|a: int, b: int| 0 <= a <= b <= s.len() && trimmed(s) == #[trigger] s.subrange(a, b),
{
    let p = |c: char| is_white_space(c);
    let front = trim_end_where(s, p);
    lemma_trim_end_is_prefix(s, p);
    lemma_trim_start_is_suffix(front, p);
    let t = trimmed(s);
    let b = front.len() as int;
    let a = b - t.len();
    assert(t =~= s.subrange(a, b));
    if t.len() > 0 {
        assert(t.last() == front.last());
    }
    lemma_trimmed_already(t);
}

proof fn lemma_run_before_is_clear(s: Seq<char>, mark: char)
    ensures
        run_before(s, mark) <= s.len(),
        forall|i: int| 0 <= i < run_before(s, mark) ==> #[trigger] s[i] != mark,
    decreases s.len(),
{
    if s.len() > 0 && s.first() != mark {
        let rest = s.drop_first();
        lemma_run_before_is_clear(rest, mark);
        assert forall|i: int| 0 <= i < run_before(s, mark) implies #[trigger] s[i] != mark by {
            if i > 0 {
                assert(s[i] == rest[i - 1]);
            }
        }
    }
}

/// A header read from a line fits a line.
proof fn lemma_header_in_fits(text: Seq<char>)
    requires
        one_line(text),
    ensures
        header_in(text) matches Some(h) ==> fits_line(h),
{
    if let Some((name, value)) = split_at_first(text, ':') {
        lemma_run_before_is_clear(text, ':');
        lemma_trimmed(name);
        lemma_trimmed(value);
        let (a, b) = choose|a: int, b: int|
            0 <= a <= b <= name.len() && trimmed(name) == #[trigger] name.subrange(a, b);
        let (c, d) = choose|a: int, b: int|
            0 <= a <= b <= value.len() && trimmed(value) == #[trigger] value.subrange(a, b);
        let n = name.len() as int;
        assert forall|i: int| 0 <= i < trimmed(name).len() implies #[trigger] trimmed(name)[i]
            != '\n' && trimmed(name)[i] != ':' by {
            assert(trimmed(name)[i] == text[a + i]);
        }
        assert forall|i: int| 0 <= i < trimmed(value).len() implies #[trigger] trimmed(value)[i]
            != '\n' by {
            assert(trimmed(value)[i] == text[n + 1 + c + i]);
        }
    }
}

/// Headers that were read fit lines.
proof fn lemma_headers_from_fit(s: Seq<u8>, closed: bool)
    ensures
        headers_from(s, closed) matches Ok((headers, _)) ==> all_fit_lines(headers),
    decreases s.len(),
{
    if let Ok((line, rest)) = line_from(s, closed) {
        let text = without_line_end(line);
        if text.len() > 0 {
            lemma_line_is_one_line(s, closed);
            lemma_line_shrinks(s, closed);
            lemma_header_in_fits(text);
            lemma_headers_from_fit(rest, closed);
        }
    }
}

/// The words of a text are words.
proof fn lemma_words_are_words(s: Seq<char>)
    ensures
        forall|i: int| 0 <= i < words(s).len() ==> is_word(#[trigger] words(s)[i]),
    decreases s.len(),
{
    if s.len() > 0 {
        if is_white_space(s.first()) {
            lemma_words_are_words(s.drop_first());
            assert(words(s) == words(s.drop_first()));
        } else {
            lemma_word_len(s);
            let n = word_len(s) as int;
            lemma_word_len_is_clear(s);
            lemma_words_are_words(s.skip(n));
            assert forall|i: int| 0 <= i < words(s).len() implies is_word(
                #[trigger] words(s)[i],
            ) by {
                if i == 0 {
                    assert(words(s)[0] == s.take(n));
                    assert forall|j: int| 0 <= j < n implies !is_white_space(
                        #[trigger] s.take(n)[j],
                    ) by {
                        assert(s.take(n)[j] == s[j]);
                    }
                } else {
                    assert(words(s)[i] == words(s.skip(n))[i - 1]);
                }
            }
        }
    }
}

proof fn lemma_word_len_is_clear(s: Seq<char>)
    ensures
        word_len(s) <= s.len(),
        forall|i: int| 0 <= i < word_len(s) ==> !is_white_space(#[trigger] s[i]),
    decreases s.len(),
{
    if s.len() > 0 && !is_white_space(s.first()) {
        let rest = s.drop_first();
        lemma_word_len_is_clear(rest);
        assert forall|i: int| 0 <= i < word_len(s) implies !is_white_space(#[trigger] s[i]) by {
            if i > 0 {
                assert(s[i] == rest[i - 1]);
            }
        }
    }
}

proof fn lemma_kept_requests_fit(headers: HeaderSeq)
    requires
        all_fit_lines(headers),
    ensures
        all_fit_lines(kept_request_headers(headers)),
    decreases headers.len(),
{
    reveal(Seq::filter);
    if headers.len() > 0 {
        assert(fits_line(headers[headers.len() - 1]));
        assert forall|i: int| 0 <= i < headers.drop_last().len() implies fits_line(
            #[trigger] headers.drop_last()[i],
        ) by {
            assert(headers.drop_last()[i] == headers[i]);
        }
        lemma_kept_requests_fit(headers.drop_last());
    }
}

pub proof fn lemma_kept_responses_fit(headers: HeaderSeq)
    requires
        all_fit_lines(headers),
    ensures
        all_fit_lines(kept_response_headers(headers)),
    decreases headers.len(),
{
    reveal(Seq::filter);
    if headers.len() > 0 {
        assert(fits_line(headers[headers.len() - 1]));
        assert forall|i: int| 0 <= i < headers.drop_last().len() implies fits_line(
            #[trigger] headers.drop_last()[i],
        ) by {
            assert(headers.drop_last()[i] == headers[i]);
        }
        lemma_kept_responses_fit(headers.drop_last());
    }
}

/// A request that was read can be written and read back, unless its request
/// line was blank.
pub proof fn law_read_request_is_readable(s: Seq<u8>, closed: bool)
    ensures
        request_from(s, closed) matches Ok((request, _)) ==> request.method.len() > 0
            ==> readable_request(request),
{
    if let Ok((line, after_line)) = line_from(s, closed) {
        lemma_words_are_words(line);
        lemma_headers_from_fit(after_line, closed);
        if let Ok((request, rest)) = request_from(s, closed) {
            lemma_kept_requests_fit(request.headers);
            reveal_strlit("/");
            assert(is_word("/"@));
        }
    }
}

/// A response that was read can be written and read back.
pub proof fn law_read_response_is_readable(s: Seq<u8>, closed: bool)
    requires
        s.len() <= isize::MAX,
    ensures
        response_from(s, closed) matches Ok((response, _)) ==> readable_response(response),
{
    if let Ok((line, after_line)) = line_from(s, closed) {
        lemma_newline_at(s);
        lemma_headers_from_fit(after_line, closed);
        lemma_headers_leave_less(after_line, closed);
        if let Ok((response, rest)) = response_from(s, closed) {
            lemma_kept_responses_fit(response.headers);
        }
    }
}

proof fn lemma_headers_leave_less(s: Seq<u8>, closed: bool)
    ensures
        headers_from(s, closed) matches Ok((_, rest)) ==> rest.len() <= s.len(),
    decreases s.len(),
{
    lemma_line_shrinks(s, closed);
    if let Ok((line, rest)) = line_from(s, closed) {
        if without_line_end(line).len() > 0 {
            lemma_headers_leave_less(rest, closed);
        }
    }
}

/// The real server reads of a forwarded request what the client sent: the same
/// method, path and body, and the same headers but for the one correct
/// `Content-Length`.
pub proof fn law_forwarding_keeps_the_request(
    s: Seq<u8>,
    closed: bool,
    tail: Seq<u8>,
    then_closed: bool,
)
    ensures
        request_from(s, closed) matches Ok((request, _)) ==> request.method.len() > 0
            ==> request_from(encode_request(request) + tail, then_closed) == Ok::<
            (RequestModel, Seq<u8>),
            ReadError,
        >((RequestModel { headers: sent_request_headers(request), ..request }, tail)),
{
    law_read_request_is_readable(s, closed);
    if let Ok((request, _)) = request_from(s, closed) {
        if request.method.len() > 0 {
            law_request_round_trip(request, tail, then_closed);
        }
    }
}

/// The client reads of a returned response what the real server sent: the same
/// status and body, and the same headers but for those that frame it.
pub proof fn law_returning_keeps_the_response(
    s: Seq<u8>,
    closed: bool,
    tail: Seq<u8>,
    then_closed: bool,
)
    requires
        s.len() <= isize::MAX,
    ensures
        response_from(s, closed) matches Ok((response, _)) ==> response_from(
            encode_response(response) + tail,
            then_closed,
        ) == Ok::<(ResponseModel, Seq<u8>), ReadError>(
            (ResponseModel { headers: sent_response_headers(response), ..response }, tail),
        ),
{
    law_read_response_is_readable(s, closed);
    if let Ok((response, _)) = response_from(s, closed) {
        law_response_round_trip(response, tail, then_closed);
    }
}

/// A blank method cannot be read back: the path would take its place.
proof fn lemma_blank_method(request: RequestModel, tail: Seq<u8>, closed: bool)
    requires
        request.method.len() == 0,
        request.path == "/"@,
    ensures
        request_from(encode_request(request) + tail, closed) matches Ok((back, _))
            ==> back.method.len() > 0,
{
    let s = encode_request(request) + tail;
    let line = request_line(request);
    let rest = header_lines(sent_request_headers(request)) + "\r\n"@;
    let after_line = encode_utf8(rest) + (request.body + tail);
    lemma_blank_method_line(request);
    assert(s == encode_utf8(line) + after_line) by {
        assert(line + header_lines(sent_request_headers(request)) + "\r\n"@ =~= line + rest);
        lemma_encode_concat(line, rest);
        assert(s =~= encode_utf8(line) + after_line);
    }
    lemma_line_reads_back(line.drop_last(), after_line, closed);
    assert(line.drop_last().push('\n') =~= line);
    assert(line_from(s, closed) matches Ok((got, _)) && got == line);
}

proof fn lemma_blank_method_line(request: RequestModel)
    requires
        request.method.len() == 0,
        request.path == "/"@,
    ensures
        request_line(request).len() > 0,
        request_line(request).last() == '\n',
        one_line(request_line(request).drop_last()),
        words(request_line(request)).len() > 0,
        words(request_line(request))[0].len() > 0,
{
    reveal_strlit(" ");
    reveal_strlit("/");
    reveal_strlit(" HTTP/1.1\r\n");
    let end = seq!['H', 'T', 'T', 'P', '/', '1', '.', '1', '\r', '\n'];
    let line = request_line(request);
    assert(line =~= seq![' ', '/', ' '] + end);
    let after = line.drop_first();
    assert(after =~= "/"@.push(' ') + end);
    assert(is_word("/"@));
    lemma_words_cons("/"@, ' ', end);
    assert(words(line) == words(after));
}

/// Only a request that is readable is read back as it was.
pub proof fn law_only_readable_requests_round_trip(
    request: RequestModel,
    tail: Seq<u8>,
    closed: bool,
)
    requires
        request_from(encode_request(request) + tail, closed) matches Ok((back, _)) && back
            == (RequestModel { headers: sent_request_headers(request), ..request }),
    ensures
        readable_request(request),
{
    let s = encode_request(request) + tail;
    let kept = kept_request_headers(request.headers);
    let sent = sent_request_headers(request);
    law_read_request_is_readable(s, closed);
    if let Ok((line, after_line)) = line_from(s, closed) {
        lemma_headers_from_fit(after_line, closed);
        if request.method.len() == 0 {
            lemma_words_are_words(line);
            assert(words(line).len() == 0) by {
                if words(line).len() > 0 {
                    assert(is_word(words(line)[0]));
                }
            }
            lemma_blank_method(request, tail, closed);
        }
    }
    assert forall|i: int| 0 <= i < kept.len() implies fits_line(#[trigger] kept[i]) by {
        assert(sent[i] == kept[i]);
    }
}

/// Only a response whose headers, as far as they are passed on, fit lines is
/// read back as it was.
pub proof fn law_only_readable_responses_round_trip(
    response: ResponseModel,
    tail: Seq<u8>,
    closed: bool,
)
    requires
        response_from(encode_response(response) + tail, closed) matches Ok((back, _)) && back
            == (ResponseModel { headers: sent_response_headers(response), ..response }),
    ensures
        all_fit_lines(kept_response_headers(response.headers)),
{
    let s = encode_response(response) + tail;
    let kept = kept_response_headers(response.headers);
    let sent = sent_response_headers(response);
    if let Ok((line, after_line)) = line_from(s, closed) {
        lemma_headers_from_fit(after_line, closed);
    }
    assert forall|i: int| 0 <= i < kept.len() implies fits_line(#[trigger] kept[i]) by {
        assert(sent[i] == kept[i]);
    }
}

} // verus!
