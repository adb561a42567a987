//! What is written can be read back.
use vstd::prelude::*;
use vstd::string::*;
use vstd::utf8::*;

use crate::httpmsg::{
    content_length, encode_request, encode_response, frames_response, header_in, header_line,
    header_lines, headers_from, kept_request_headers, kept_response_headers, reason_for,
    request_from, request_line, response_from, sent_request_headers, sent_response_headers,
    status_in, status_line, HeaderSeq, RequestModel, ResponseModel,
};
use crate::reader::{lemma_is_newline_at, line_from, ReadError};
use crate::search::lemma_is_first_where;
use crate::text::{
    decimal, is_digit, is_line_end, is_white_space, lemma_decimal, number_in, run_before,
    same_ignoring_case, trim_end_where, trim_start_where, trimmed, without_line_end, word_len,
    words,
};
use crate::utf8_text::{lemma_encode_ascii, lemma_encode_concat, lemma_encode_one_line, one_line};

verus! {

/// A text of one word: it has characters, and none is white space.
pub open spec fn is_word(s: Seq<char>) -> bool {
    &&& s.len() > 0
    &&& forall|i: int| 0 <= i < s.len() ==> !is_white_space(#[trigger] s[i])
}

/// A header that a line can hold: neither part spans lines or has white space
/// at its ends, and the name has no colon.
pub open spec fn fits_line(h: (Seq<char>, Seq<char>)) -> bool {
    &&& one_line(h.0)
    &&& one_line(h.1)
    &&& trimmed(h.0) == h.0
    &&& trimmed(h.1) == h.1
    &&& forall|i: int| 0 <= i < h.0.len() ==> #[trigger] h.0[i] != ':'
}

/// Every header fits a line.
pub open spec fn all_fit_lines(headers: HeaderSeq) -> bool {
    forall|i: int| 0 <= i < headers.len() ==> fits_line(#[trigger] headers[i])
}

proof fn lemma_trim_end_len(s: Seq<char>, p: spec_fn(char) -> bool)
    ensures
        trim_end_where(s, p).len() <= s.len(),
        s.len() > 0 && p(s.last()) ==> trim_end_where(s, p).len() < s.len(),
    decreases s.len(),
{
    if s.len() > 0 && p(s.last()) {
        lemma_trim_end_len(s.drop_last(), p);
    }
}

proof fn lemma_trim_start_len(s: Seq<char>, p: spec_fn(char) -> bool)
    ensures
        trim_start_where(s, p).len() <= s.len(),
        s.len() > 0 && p(s.first()) ==> trim_start_where(s, p).len() < s.len(),
    decreases s.len(),
{
    if s.len() > 0 && p(s.first()) {
        lemma_trim_start_len(s.drop_first(), p);
    }
}

/// A text is its own trimmed form where, and only where, it has no white space
/// at its ends.
pub proof fn lemma_trimmed_already(s: Seq<char>)
    ensures
        trimmed(s) == s <==> (s.len() > 0 ==> !is_white_space(s.first()) && !is_white_space(
            s.last(),
        )),
{
    let p = |c: char| is_white_space(c);
    lemma_trim_end_len(s, p);
    lemma_trim_start_len(trim_end_where(s, p), p);
}

/// A line without a newline of its own is read up to the newline after it.
pub proof fn lemma_line_reads_back(text: Seq<char>, tail: Seq<u8>, closed: bool)
    requires
        one_line(text),
    ensures
        line_from(encode_utf8(text.push('\n')) + tail, closed) == Ok::<
            (Seq<char>, Seq<u8>),
            ReadError,
        >((text.push('\n'), tail)),
{
    let line = text.push('\n');
    let head = encode_utf8(text);
    let bytes = encode_utf8(line);
    let s = bytes + tail;
    assert(line =~= text + seq!['\n']);
    lemma_encode_concat(text, seq!['\n']);
    lemma_encode_ascii('\n');
    lemma_encode_one_line(text);
    assert(bytes == head + seq![10u8]);
    let n = head.len() as int;
    assert(s[n] == 10u8);
    assert forall|i: int| 0 <= i < n implies #[trigger] s[i] != 10u8 by {
        assert(s[i] == head[i]);
    }
    lemma_is_newline_at(s, n);
    assert(s.take(n + 1) =~= bytes);
    assert(s.skip(n + 1) =~= tail);
    encode_utf8_valid_utf8(line);
    encode_utf8_decode_utf8(line);
}

proof fn lemma_run_before(s: Seq<char>, mark: char, n: int)
    requires
        0 <= n < s.len(),
        s[n] == mark,
        forall|i: int| 0 <= i < n ==> #[trigger] s[i] != mark,
    ensures
        run_before(s, mark) == n,
    decreases n,
{
    if n > 0 {
        assert(s[0] != mark);
        let rest = s.drop_first();
        assert forall|i: int| 0 <= i < n - 1 implies #[trigger] rest[i] != mark by {
            assert(s[i + 1] != mark);
        }
        lemma_run_before(rest, mark, n - 1);
    }
}

/// `s` without its suffix of characters that satisfy `p` is a prefix of `s`, and
/// does not end in such a character.
pub proof fn lemma_trim_end_is_prefix(s: Seq<char>, p: spec_fn(char) -> bool)
    ensures
        trim_end_where(s, p).len() <= s.len(),
        trim_end_where(s, p) == s.take(trim_end_where(s, p).len() as int),
        trim_end_where(s, p).len() > 0 ==> !p(trim_end_where(s, p).last()),
        forall|i: int| 0 <= i < s.len() && !p(#[trigger] s[i]) ==> i < trim_end_where(s, p).len(),
    decreases s.len(),
{
    if s.len() > 0 && p(s.last()) {
        lemma_trim_end_is_prefix(s.drop_last(), p);
        let n = trim_end_where(s, p).len() as int;
        assert(s.drop_last().take(n) =~= s.take(n));
        assert forall|i: int| 0 <= i < s.len() && !p(#[trigger] s[i]) implies i < n by {
            assert(s.drop_last()[i] == s[i]);
        }
    } else {
        assert(s.take(s.len() as int) =~= s);
    }
}

/// The line that writes a header, but for its end.
spec fn header_text(h: (Seq<char>, Seq<char>)) -> Seq<char> {
    h.0 + ": "@ + h.1
}

/// Neither part of the header spans lines.
pub open spec fn on_one_line(h: (Seq<char>, Seq<char>)) -> bool {
    one_line(h.0) && one_line(h.1)
}

/// The header that is read from the line that writes `h`.
pub open spec fn as_read(h: (Seq<char>, Seq<char>)) -> (Seq<char>, Seq<char>) {
    match header_in(without_line_end(header_line(h))) {
        Some(found) => found,
        None => h,
    }
}

/// The headers that are read from the lines that write `headers`.
pub open spec fn all_as_read(headers: HeaderSeq) -> HeaderSeq {
    headers.map_values(|h: (Seq<char>, Seq<char>)| as_read(h))
}

/// The line that writes a header on one line is read as one line that holds a
/// header.
proof fn lemma_header_line_is_read(h: (Seq<char>, Seq<char>))
    requires
        on_one_line(h),
    ensures
        without_line_end(header_line(h)).len() > 0,
        header_in(without_line_end(header_line(h))) == Some(as_read(h)),
        header_line(h) == header_text(h).push('\r').push('\n'),
        one_line(header_text(h).push('\r')),
{
    reveal_strlit(": ");
    reveal_strlit("\r\n");
    let text = header_text(h);
    let line = header_line(h);
    let kept = without_line_end(line);
    let p = |c: char| is_line_end(c);
    let n = h.0.len() as int;
    assert(": "@ =~= seq![':', ' ']);
    assert(line =~= text.push('\r').push('\n'));
    assert(line[n] == ':' && line[n + 1] == ' ');
    lemma_trim_end_is_prefix(line, p);
    assert(!p(line[n + 1]));
    assert(kept[n] == ':');
    lemma_run_before_stops(kept, ':', n);
    assert forall|i: int| 0 <= i < text.push('\r').len() implies #[trigger] text.push('\r')[i]
        != '\n' by {
        if i < n {
            assert(text[i] == h.0[i]);
        } else if n + 2 <= i < text.len() {
            assert(text[i] == h.1[i - n - 2]);
        }
    }
}

proof fn lemma_run_before_stops(s: Seq<char>, mark: char, n: int)
    requires
        0 <= n < s.len(),
        s[n] == mark,
    ensures
        run_before(s, mark) <= n,
    decreases n,
{
    if n > 0 && s.first() != mark {
        assert(s.drop_first()[n - 1] == mark);
        lemma_run_before_stops(s.drop_first(), mark, n - 1);
    }
}

/// A header that fits a line is read as it was.
proof fn lemma_fitting_header_is_kept(h: (Seq<char>, Seq<char>))
    requires
        fits_line(h),
    ensures
        as_read(h) == h,
{
    reveal_strlit(": ");
    reveal_strlit("\r\n");
    let text = header_text(h);
    assert(": "@ =~= seq![':', ' ']);
    assert(header_line(h) =~= text.push('\r').push('\n'));
    lemma_trimmed_already(h.0);
    lemma_trimmed_already(h.1);
    assert(!is_line_end(text.last())) by {
        if h.1.len() > 0 {
            assert(text.last() == h.1.last());
        } else {
            assert(text.last() == ' ');
        }
    }
    assert(without_line_end(header_line(h)) == text) by {
        reveal_with_fuel(trim_end_where, 3);
        assert(header_line(h).drop_last() =~= text.push('\r'));
        assert(text.push('\r').drop_last() =~= text);
    }
    let n = h.0.len() as int;
    assert(text[n] == ':');
    assert forall|i: int| 0 <= i < n implies #[trigger] text[i] != ':' by {
        assert(text[i] == h.0[i]);
    }
    lemma_run_before(text, ':', n);
    assert(text.take(n) =~= h.0);
    let value = text.skip(n + 1);
    assert(value =~= seq![' '] + h.1);
    let w = |c: char| is_white_space(c);
    if h.1.len() == 0 {
        assert(value =~= seq![' ']);
        assert(value.drop_last() =~= Seq::<char>::empty());
        reveal_with_fuel(trim_end_where, 2);
        assert(trim_end_where(value, w) =~= Seq::<char>::empty());
        assert(trimmed(value) =~= h.1);
    } else {
        assert(value.last() == h.1.last());
        assert(trim_end_where(value, w) == value);
        assert(value.drop_first() =~= h.1);
        reveal_with_fuel(trim_start_where, 2);
        assert(trimmed(value) == h.1);
    }
}

/// Headers that fit lines are read as they were.
pub proof fn lemma_fitting_headers_are_kept(headers: HeaderSeq)
    requires
        all_fit_lines(headers),
    ensures
        all_as_read(headers) == headers,
{
    assert forall|i: int| 0 <= i < headers.len() implies as_read(#[trigger] headers[i])
        == headers[i] by {
        lemma_fitting_header_is_kept(headers[i]);
    }
    assert(all_as_read(headers) =~= headers);
}

/// No header spans lines.
pub open spec fn all_on_one_line(headers: HeaderSeq) -> bool {
    forall|i: int| 0 <= i < headers.len() ==> on_one_line(#[trigger] headers[i])
}

/// A header that does not span lines is read from the line that writes it.
proof fn lemma_header_is_read(h: (Seq<char>, Seq<char>), tail: Seq<u8>, closed: bool)
    requires
        on_one_line(h),
    ensures
        headers_from(encode_utf8(header_line(h)) + tail, closed) == match headers_from(
            tail,
            closed,
        ) {
            Ok((more, rest)) => Ok::<(HeaderSeq, Seq<u8>), ReadError>(
                (seq![as_read(h)] + more, rest),
            ),
            Err(e) => Err(e),
        },
{
    lemma_header_line_is_read(h);
    lemma_line_reads_back(header_text(h).push('\r'), tail, closed);
}

/// Headers that do not span lines are read from the lines that write them.
proof fn lemma_headers_are_read(headers: HeaderSeq, tail: Seq<u8>, closed: bool)
    requires
        all_on_one_line(headers),
    ensures
        headers_from(encode_utf8(header_lines(headers)) + tail, closed) == match headers_from(
            tail,
            closed,
        ) {
            Ok((more, rest)) => Ok::<(HeaderSeq, Seq<u8>), ReadError>(
                (all_as_read(headers) + more, rest),
            ),
            Err(e) => Err(e),
        },
    decreases headers.len(),
{
    if headers.len() == 0 {
        assert(encode_utf8(header_lines(headers)) + tail =~= tail);
        if let Ok((more, rest)) = headers_from(tail, closed) {
            assert(all_as_read(headers) + more =~= more);
        }
    } else {
        let front = headers.drop_last();
        let h = headers.last();
        assert(on_one_line(headers[headers.len() - 1]));
        assert forall|i: int| 0 <= i < front.len() implies on_one_line(#[trigger] front[i]) by {
            assert(headers[i] == front[i]);
        }
        let line = encode_utf8(header_line(h));
        lemma_header_is_read(h, tail, closed);
        lemma_encode_concat(header_lines(front), header_line(h));
        assert(encode_utf8(header_lines(headers)) + tail =~= encode_utf8(header_lines(front)) + (
        line + tail));
        lemma_headers_are_read(front, line + tail, closed);
        if let Ok((more, rest)) = headers_from(tail, closed) {
            assert(all_as_read(front) + (seq![as_read(h)] + more) =~= all_as_read(headers) + more);
        }
    }
}

/// The headers, and the empty line that ends them, are read.
pub proof fn lemma_head_is_read(headers: HeaderSeq, tail: Seq<u8>, closed: bool)
    requires
        all_on_one_line(headers),
    ensures
        headers_from(encode_utf8(header_lines(headers) + "\r\n"@) + tail, closed) == Ok::<
            (HeaderSeq, Seq<u8>),
            ReadError,
        >((all_as_read(headers), tail)),
{
    reveal_strlit("\r\n");
    let end = "\r\n"@;
    assert(end =~= seq!['\r'].push('\n'));
    lemma_encode_concat(header_lines(headers), end);
    assert(encode_utf8(header_lines(headers) + end) + tail =~= encode_utf8(header_lines(headers))
        + (encode_utf8(end) + tail));
    lemma_line_reads_back(seq!['\r'], tail, closed);
    assert(without_line_end(end) =~= Seq::<char>::empty()) by {
        reveal_with_fuel(trim_end_where, 3);
        assert(end.drop_last() =~= seq!['\r']);
        assert(seq!['\r'].drop_last() =~= Seq::<char>::empty());
    }
    lemma_headers_are_read(headers, encode_utf8(end) + tail, closed);
    assert(all_as_read(headers) + Seq::empty() =~= all_as_read(headers));
}

proof fn lemma_word_len_is(s: Seq<char>, n: int)
    requires
        0 <= n < s.len(),
        is_white_space(s[n]),
        forall|i: int| 0 <= i < n ==> !is_white_space(#[trigger] s[i]),
    ensures
        word_len(s) == n,
    decreases n,
{
    if n > 0 {
        assert(!is_white_space(s[0]));
        let rest = s.drop_first();
        assert forall|i: int| 0 <= i < n - 1 implies !is_white_space(#[trigger] rest[i]) by {
            assert(!is_white_space(s[i + 1]));
        }
        lemma_word_len_is(rest, n - 1);
    }
}

/// A word, white space and a text have the words of the text after the first.
pub proof fn lemma_words_cons(word: Seq<char>, c: char, rest: Seq<char>)
    requires
        is_word(word),
        is_white_space(c),
    ensures
        words(word.push(c) + rest) == seq![word] + words(rest),
{
    let s = word.push(c) + rest;
    let n = word.len() as int;
    assert(s[n] == c);
    assert forall|i: int| 0 <= i < n implies !is_white_space(#[trigger] s[i]) by {
        assert(s[i] == word[i]);
    }
    assert(!is_white_space(s[0]));
    lemma_word_len_is(s, n);
    assert(s.take(n) =~= word);
    assert(s.skip(n).drop_first() =~= rest);
    assert(s.skip(n).first() == c);
    assert(words(s.skip(n)) == words(rest));
}

/// The decimal notation of a number is a word, and denotes the number.
pub proof fn lemma_decimal_reads_back(n: nat, max: nat)
    requires
        n <= max,
    ensures
        is_word(decimal(n)),
        number_in(decimal(n), max) == Some(n),
{
    lemma_decimal(n);
    let s = decimal(n);
    assert(is_digit(s[0]));
    assert forall|i: int| 0 <= i < s.len() implies !is_white_space(#[trigger] s[i]) by {
        assert(is_digit(s[i]));
    }
}

/// A word has no white space at its ends, and no newline.
pub proof fn lemma_word_fits(s: Seq<char>)
    requires
        is_word(s),
    ensures
        trimmed(s) == s,
        one_line(s),
{
    assert(!is_white_space(s[0]));
    assert(!is_white_space(s[s.len() - 1]));
    lemma_trimmed_already(s);
    assert forall|i: int| 0 <= i < s.len() implies #[trigger] s[i] != '\n' by {
        assert(!is_white_space(s[i]));
    }
}

/// The header that declares a body length fits a line.
proof fn lemma_length_header_fits(n: nat)
    ensures
        fits_line(("content-length"@, decimal(n))),
{
    reveal_strlit("content-length");
    let name = "content-length"@;
    lemma_decimal_reads_back(n, n);
    lemma_word_fits(decimal(n));
    assert(is_word(name));
    lemma_word_fits(name);
}

/// The header that announces the end of the connection fits a line.
proof fn lemma_close_header_fits()
    ensures
        fits_line(("connection"@, "close"@)),
{
    reveal_strlit("connection");
    reveal_strlit("close");
    assert(is_word("connection"@));
    assert(is_word("close"@));
    lemma_word_fits("connection"@);
    lemma_word_fits("close"@);
}

/// Among headers none of which declares a length, one that does is found.
proof fn lemma_length_is_found(kept: HeaderSeq, n: nat, rest: HeaderSeq)
    requires
        n <= usize::MAX,
        forall|i: int|
            0 <= i < kept.len() ==> !same_ignoring_case(
                (#[trigger] kept[i]).0,
                "content-length"@,
            ),
    ensures
        content_length(kept.push(("content-length"@, decimal(n))) + rest) == Some(n),
{
    let name = "content-length"@;
    let all = kept.push((name, decimal(n))) + rest;
    let p = |h: (Seq<char>, Seq<char>)| same_ignoring_case(h.0, name);
    assert forall|i: int| 0 <= i < kept.len() implies !p(#[trigger] all[i]) by {
        assert(all[i] == kept[i]);
    }
    assert(p(all[kept.len() as int]));
    lemma_is_first_where(all, p, kept.len() as int);
    lemma_decimal_reads_back(n, usize::MAX as nat);
}

/// The headers of a request that are passed on declare no length.
proof fn lemma_kept_request_headers(headers: HeaderSeq)
    ensures
        forall|i: int|
            0 <= i < kept_request_headers(headers).len() ==> !same_ignoring_case(
                (#[trigger] kept_request_headers(headers)[i]).0,
                "content-length"@,
            ),
{
    broadcast use vstd::seq_lib::group_filter_ensures;

}

/// The headers of a response that are passed on do not frame it.
proof fn lemma_kept_response_headers(headers: HeaderSeq)
    ensures
        forall|i: int|
            0 <= i < kept_response_headers(headers).len() ==> !frames_response(
                (#[trigger] kept_response_headers(headers)[i]).0,
            ),
{
    broadcast use vstd::seq_lib::group_filter_ensures;

}

/// A request that was written is read with its method, its path and its body,
/// provided that the first two are words, and that no header spans lines or is
/// read as another body length, as one can be whose name white space precedes.
/// What follows it is left unread, and whether the connection has ended does
/// not matter.
pub proof fn law_written_request_is_read(request: RequestModel, tail: Seq<u8>, closed: bool)
    requires
        is_word(request.method),
        is_word(request.path),
        all_on_one_line(kept_request_headers(request.headers)),
        content_length(all_as_read(sent_request_headers(request))) == Some(request.body.len()),
        request.body.len() <= isize::MAX,
    ensures
        request_from(encode_request(request) + tail, closed) == Ok::<
            (RequestModel, Seq<u8>),
            ReadError,
        >((RequestModel { headers: all_as_read(sent_request_headers(request)), ..request }, tail)),
{
    reveal_strlit(" ");
    reveal_strlit(" HTTP/1.1\r\n");
    let end = seq!['H', 'T', 'T', 'P', '/', '1', '.', '1', '\r'];
    let line = request_line(request);
    let text = request.method + " "@ + request.path + " "@ + end;
    let sent = sent_request_headers(request);
    let head = header_lines(sent) + "\r\n"@;
    let len = request.body.len();
    assert(line =~= text.push('\n'));
    lemma_word_fits(request.method);
    lemma_word_fits(request.path);
    assert(one_line(text)) by {
        let m = request.method.len() as int;
        let k = request.path.len() as int;
        assert forall|i: int| 0 <= i < text.len() implies #[trigger] text[i] != '\n' by {
            if i < m {
                assert(text[i] == request.method[i]);
            } else if m < i <= m + k {
                assert(text[i] == request.path[i - m - 1]);
            } else if m + k + 1 < i {
                assert(text[i] == end[i - m - k - 2]);
            }
        }
    }
    assert(words(line) == seq![request.method, request.path] + words(end.push('\n'))) by {
        let after = request.path.push(' ') + end.push('\n');
        assert(line =~= request.method.push(' ') + after);
        lemma_words_cons(request.method, ' ', after);
        lemma_words_cons(request.path, ' ', end.push('\n'));
        assert(seq![request.method] + (seq![request.path] + words(end.push('\n'))) =~= seq![
            request.method,
            request.path,
        ] + words(end.push('\n')));
    }
    let after_head = request.body + tail;
    let after_line = encode_utf8(head) + after_head;
    assert(line + header_lines(sent) + "\r\n"@ =~= line + head);
    lemma_encode_concat(line, head);
    assert(encode_request(request) + tail =~= encode_utf8(line) + after_line);
    lemma_line_reads_back(text, after_line, closed);
    lemma_length_header_fits(len);
    assert(all_on_one_line(sent));
    lemma_head_is_read(sent, after_head, closed);
    assert(after_head.take(len as int) =~= request.body);
    assert(after_head.skip(len as int) =~= tail);
}

/// A response that was written is read with its status, whatever it is, and its
/// body, provided that no header spans lines or is read as another body length.
/// What follows it is left unread, and whether the connection has ended does
/// not matter.
pub proof fn law_written_response_is_read(response: ResponseModel, tail: Seq<u8>, closed: bool)
    requires
        all_on_one_line(kept_response_headers(response.headers)),
        content_length(all_as_read(sent_response_headers(response))) == Some(response.body.len()),
        response.body.len() <= isize::MAX,
    ensures
        response_from(encode_response(response) + tail, closed) == Ok::<
            (ResponseModel, Seq<u8>),
            ReadError,
        >(
            (
                ResponseModel { headers: all_as_read(sent_response_headers(response)), ..response },
                tail,
            ),
        ),
{
    reveal_strlit("HTTP/1.1 ");
    reveal_strlit(" ");
    reveal_strlit("\r\n");
    let version = seq!['H', 'T', 'T', 'P', '/', '1', '.', '1'];
    let status = decimal(response.status as nat);
    let reason = reason_for(response.status);
    let line = status_line(response.status);
    let text = version + " "@ + status + " "@ + reason + seq!['\r'];
    let sent = sent_response_headers(response);
    let head = header_lines(sent) + "\r\n"@;
    let len = response.body.len();
    assert(line =~= text.push('\n'));
    lemma_decimal_reads_back(response.status as nat, 65535);
    lemma_word_fits(status);
    lemma_reason_is_one_line(response.status);
    assert(is_word(version));
    assert(one_line(text)) by {
        let m = status.len() as int;
        assert forall|i: int| 0 <= i < text.len() implies #[trigger] text[i] != '\n' by {
            if i < 8 {
                assert(text[i] == version[i]);
            } else if 8 < i < 9 + m {
                assert(text[i] == status[i - 9]);
            } else if 9 + m < i < 10 + m + reason.len() {
                assert(text[i] == reason[i - 10 - m]);
            }
        }
    }
    assert(status_in(line) == response.status) by {
        let end = reason + seq!['\r', '\n'];
        let after = status.push(' ') + end;
        assert(line =~= version.push(' ') + after);
        lemma_words_cons(version, ' ', after);
        lemma_words_cons(status, ' ', end);
        assert(words(line)[1] == status);
    }
    let after_head = response.body + tail;
    let after_line = encode_utf8(head) + after_head;
    assert(line + header_lines(sent) + "\r\n"@ =~= line + head);
    lemma_encode_concat(line, head);
    assert(encode_response(response) + tail =~= encode_utf8(line) + after_line);
    lemma_line_reads_back(text, after_line, closed);
    lemma_length_header_fits(len);
    lemma_close_header_fits();
    assert(all_on_one_line(sent));
    lemma_head_is_read(sent, after_head, closed);
    assert(after_head.take(len as int) =~= response.body);
    assert(after_head.skip(len as int) =~= tail);
}

/// The request can be written so that it is read back as it was: its method and
/// path are words, the headers that are passed on fit lines, and its body is
/// of a length that a buffer can have.
pub open spec fn readable_request(request: RequestModel) -> bool {
    &&& is_word(request.method)
    &&& is_word(request.path)
    &&& all_fit_lines(kept_request_headers(request.headers))
    &&& request.body.len() <= isize::MAX
}

/// The response can be written so that it is read back as it was: the headers
/// that are passed on fit lines, and its body is of a length that a buffer can
/// have.
pub open spec fn readable_response(response: ResponseModel) -> bool {
    &&& all_fit_lines(kept_response_headers(response.headers))
    &&& response.body.len() <= isize::MAX
}

/// A request that was written is read back: its method, its path, its body, and
/// its headers with the one correct `Content-Length`. What follows it is left
/// unread, and whether the connection has ended does not matter.
pub proof fn law_request_round_trip(request: RequestModel, tail: Seq<u8>, closed: bool)
    requires
        readable_request(request),
    ensures
        request_from(encode_request(request) + tail, closed) == Ok::<
            (RequestModel, Seq<u8>),
            ReadError,
        >((RequestModel { headers: sent_request_headers(request), ..request }, tail)),
{
    let kept = kept_request_headers(request.headers);
    let sent = sent_request_headers(request);
    lemma_length_header_fits(request.body.len());
    lemma_kept_request_headers(request.headers);
    lemma_length_is_found(kept, request.body.len(), Seq::empty());
    assert(sent + Seq::empty() =~= sent);
    assert(all_fit_lines(sent));
    lemma_fitting_headers_are_kept(sent);
    law_written_request_is_read(request, tail, closed);
}

/// A response that was written is read back: its status, its body, and its
/// headers with the one correct `Content-Length` and `Connection`. This holds
/// of every status. What follows it is left unread, and whether the connection
/// has ended does not matter.
pub proof fn law_response_round_trip(response: ResponseModel, tail: Seq<u8>, closed: bool)
    requires
        readable_response(response),
    ensures
        response_from(encode_response(response) + tail, closed) == Ok::<
            (ResponseModel, Seq<u8>),
            ReadError,
        >((ResponseModel { headers: sent_response_headers(response), ..response }, tail)),
{
    let kept = kept_response_headers(response.headers);
    let sent = sent_response_headers(response);
    lemma_length_header_fits(response.body.len());
    lemma_close_header_fits();
    lemma_kept_response_headers(response.headers);
    let close = seq![("connection"@, "close"@)];
    lemma_length_is_found(kept, response.body.len(), close);
    assert(kept.push(("content-length"@, decimal(response.body.len()))) + close =~= sent);
    assert(all_fit_lines(sent));
    lemma_fitting_headers_are_kept(sent);
    law_written_response_is_read(response, tail, closed);
}

/// No phrase that goes with a status spans lines.
proof fn lemma_reason_is_one_line(status: u16)
    ensures
        one_line(reason_for(status)),
{
    reveal_strlit("OK");
    reveal_strlit("Created");
    reveal_strlit("No Content");
    reveal_strlit("Moved Permanently");
    reveal_strlit("Found");
    reveal_strlit("Not Modified");
    reveal_strlit("Bad Request");
    reveal_strlit("Unauthorized");
    reveal_strlit("Forbidden");
    reveal_strlit("Not Found");
    reveal_strlit("Internal Server Error");
    reveal_strlit("Bad Gateway");
    reveal_strlit("Service Unavailable");
    reveal_strlit("Unknown");
}

} // verus!
