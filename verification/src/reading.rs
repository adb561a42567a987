//! What is read of the bytes that a peer sends, from the first line of a
//! message to the end of its body.
use vstd::prelude::*;
use vstd::string::*;
use vstd::utf8::*;

use crate::characters::{
    law_line_end, law_not_split, law_number, law_split_at_first, law_trimmed, lemma_trim_end_drops,
};
use crate::httpmsg::{
    content_length, header_in, header_line, header_lines, headers_from, request_from,
    response_from, HeaderSeq, RequestModel, ResponseModel,
};
use crate::reader::{law_line, ReadError};
use crate::round_trip::{
    all_on_one_line, fits_line, is_word, lemma_decimal_reads_back, lemma_fitting_headers_are_kept,
    lemma_head_is_read, lemma_line_reads_back, lemma_trim_end_is_prefix, lemma_trimmed_already,
    lemma_word_fits, lemma_words_cons,
};
use crate::search::{lemma_is_first_where, lemma_none_where};
use crate::text::{
    decimal, is_line_end, is_white_space, lemma_word_len, number_in, same_ignoring_case,
    trim_end_where, trimmed, without_line_end, word_len, words,
};
use crate::utf8_text::{
    lemma_encode_ascii, lemma_encode_concat, lemma_encode_one_line, one_line,
};

verus! {

pub proof fn lemma_one_line(s: Seq<char>)
    ensures
        one_line(s) == !s.contains('\n'),
{
    if !s.contains('\n') {
        assert forall|i: int| 0 <= i < s.len() implies #[trigger] s[i] != '\n' by {
            assert(s.contains(s[i]));
        }
    }
}

/// Trimming the end does not reach past a character that stays.
proof fn lemma_trim_end_stops(front: Seq<char>, s: Seq<char>, p: spec_fn(char) -> bool)
    requires
        front.len() > 0,
        !p(front.last()),
    ensures
        trim_end_where(front + s, p) == front + trim_end_where(s, p),
    decreases s.len(),
{
    if s.len() == 0 {
        assert(front + s =~= front);
    } else if p(s.last()) {
        assert((front + s).drop_last() =~= front + s.drop_last());
        assert((front + s).last() == s.last());
        lemma_trim_end_stops(front, s.drop_last(), p);
    } else {
        assert((front + s).last() == s.last());
    }
}

/// The end of a line is white space, so that trimming takes it away anyway.
proof fn lemma_trimmed_without_line_end(s: Seq<char>)
    ensures
        trimmed(without_line_end(s)) == trimmed(s),
{
    let p = |c: char| is_line_end(c);
    let w = |c: char| is_white_space(c);
    let kept = without_line_end(s);
    lemma_trim_end_is_prefix(s, p);
    let n = kept.len() as int;
    let end = s.skip(n);
    assert(s =~= kept + end);
    assert forall|i: int| 0 <= i < end.len() implies w(#[trigger] end[i]) by {
        assert(p(s[n + i]));
    }
    lemma_trim_end_drops(kept, end, w);
}

/// A line of the head with a colon is read as a header: its name is what stands
/// before the first colon, its value all that stands after it, each without the
/// white space around it. The other headers follow.
pub proof fn law_header_line(
    before_name: Seq<char>,
    name: Seq<char>,
    after_name: Seq<char>,
    before_value: Seq<char>,
    value: Seq<char>,
    after_value: Seq<char>,
    tail: Seq<u8>,
    closed: bool,
)
    requires
        trimmed(name) == name,
        trimmed(value) == value,
        !name.contains(':'),
        forall|i: int| 0 <= i < before_name.len() ==> is_white_space(#[trigger] before_name[i]),
        forall|i: int| 0 <= i < after_name.len() ==> is_white_space(#[trigger] after_name[i]),
        forall|i: int| 0 <= i < before_value.len() ==> is_white_space(#[trigger] before_value[i]),
        forall|i: int| 0 <= i < after_value.len() ==> is_white_space(#[trigger] after_value[i]),
        !(before_name + name + after_name + before_value + value + after_value).contains('\n'),
    ensures
        headers_from(
            encode_utf8(
                before_name + name + after_name + seq![':'] + before_value + value + after_value
                    + seq!['\n'],
            ) + tail,
            closed,
        ) == match headers_from(tail, closed) {
            Ok((more, rest)) => Ok::<(HeaderSeq, Seq<u8>), ReadError>(
                (seq![(name, value)] + more, rest),
            ),
            Err(e) => Err(e),
        },
{
    let left = before_name + name + after_name;
    let right = before_value + value + after_value;
    let all = before_name + name + after_name + before_value + value + after_value;
    let text = left.push(':') + right;
    let line = before_name + name + after_name + seq![':'] + before_value + value + after_value
        + seq!['\n'];
    let p = |c: char| is_line_end(c);
    assert(line =~= text.push('\n'));
    assert(line =~= text + seq!['\n']);
    assert(all =~= left + right);
    lemma_one_line(all);
    assert forall|i: int| 0 <= i < text.len() implies #[trigger] text[i] != '\n' by {
        if i < left.len() {
            assert(text[i] == all[i]);
        } else if i > left.len() {
            assert(text[i] == all[i - 1]);
        }
    }
    lemma_line_reads_back(text, tail, closed);
    lemma_trim_end_drops(text, seq!['\n'], p);
    lemma_trim_end_stops(left.push(':'), right, p);
    let kept = without_line_end(line);
    assert(kept == left.push(':') + without_line_end(right));
    if left.contains(':') {
        let i = choose|i: int| 0 <= i < left.len() && left[i] == ':';
        if i < before_name.len() {
            assert(left[i] == before_name[i]);
        } else if i < before_name.len() + name.len() {
            assert(left[i] == name[i - before_name.len()]);
            assert(name.contains(':'));
        } else {
            assert(left[i] == after_name[i - before_name.len() - name.len()]);
        }
        assert(false);
    }
    law_split_at_first(left, ':', without_line_end(right));
    lemma_trimmed_without_line_end(right);
    lemma_trimmed_already(name);
    lemma_trimmed_already(value);
    law_trimmed(before_name, name, after_name);
    law_trimmed(before_value, value, after_value);
    assert(header_in(kept) == Some((name, value)));
}

/// A line of the head without a colon is skipped.
pub proof fn law_line_without_colon(text: Seq<char>, tail: Seq<u8>, closed: bool)
    requires
        !text.contains(':'),
        !text.contains('\n'),
        exists|i: int| 0 <= i < text.len() && #[trigger] text[i] != '\r',
    ensures
        headers_from(encode_utf8(text + seq!['\n']) + tail, closed) == headers_from(tail, closed),
{
    let p = |c: char| is_line_end(c);
    let line = text + seq!['\n'];
    assert(line =~= text.push('\n'));
    lemma_one_line(text);
    lemma_line_reads_back(text, tail, closed);
    lemma_trim_end_drops(text, seq!['\n'], p);
    lemma_trim_end_is_prefix(text, p);
    let kept = without_line_end(text);
    let i = choose|i: int| 0 <= i < text.len() && #[trigger] text[i] != '\r';
    assert(!p(text[i]));
    if kept.contains(':') {
        let k = choose|k: int| 0 <= k < kept.len() && kept[k] == ':';
        assert(text[k] == ':');
    }
    law_not_split(kept, ':');
}

/// An empty line ends the head, and what follows it is left: a newline, whether
/// or not carriage returns precede it.
pub proof fn law_empty_line_ends_the_head(crs: Seq<char>, tail: Seq<u8>, closed: bool)
    requires
        forall|i: int| 0 <= i < crs.len() ==> #[trigger] crs[i] == '\r',
    ensures
        headers_from(encode_utf8(crs + seq!['\n']) + tail, closed) == Ok::<
            (HeaderSeq, Seq<u8>),
            ReadError,
        >((Seq::empty(), tail)),
{
    assert(crs + seq!['\n'] =~= crs.push('\n'));
    lemma_line_reads_back(crs, tail, closed);
    law_line_end(Seq::empty(), crs + seq!['\n']);
    assert(Seq::empty() + (crs + seq!['\n']) =~= crs + seq!['\n']);
}

/// The end of the connection ends the last line of a head, and the head, as a
/// newline would.
pub proof fn law_end_of_connection_ends_the_head(text: Seq<char>)
    requires
        !text.contains('\n'),
    ensures
        headers_from(encode_utf8(text), true) == headers_from(
            encode_utf8(text + seq!['\n']),
            true,
        ),
        headers_from(Seq::empty(), true) == Ok::<(HeaderSeq, Seq<u8>), ReadError>(
            (Seq::empty(), Seq::empty()),
        ),
{
    let none = Seq::<u8>::empty();
    let p = |c: char| is_line_end(c);
    lemma_one_line(text);
    lemma_encode_one_line(text);
    assert(!encode_utf8(text).contains(10u8));
    law_line(encode_utf8(text), none, true);
    encode_utf8_valid_utf8(text);
    encode_utf8_decode_utf8(text);
    assert(text + seq!['\n'] =~= text.push('\n'));
    assert(encode_utf8(text.push('\n')) + none =~= encode_utf8(text.push('\n')));
    lemma_line_reads_back(text, none, true);
    lemma_trim_end_drops(text, seq!['\n'], p);
    let empty = Seq::<char>::empty();
    assert(!none.contains(10u8));
    law_line(none, none, true);
    assert(encode_utf8(empty) =~= none);
    encode_utf8_valid_utf8(empty);
    encode_utf8_decode_utf8(empty);
}

/// A line of the head that is not valid UTF-8 is refused, and the head goes on
/// as long as more can follow.
pub proof fn law_head_is_refused_or_goes_on(bytes: Seq<u8>, tail: Seq<u8>, closed: bool)
    requires
        !bytes.contains(10u8),
    ensures
        !valid_utf8(bytes.push(10u8)) ==> headers_from(bytes.push(10u8) + tail, closed) == Err::<
            (HeaderSeq, Seq<u8>),
            ReadError,
        >(ReadError::InvalidUtf8),
        !valid_utf8(bytes) ==> headers_from(bytes, true) == Err::<(HeaderSeq, Seq<u8>), ReadError>(
            ReadError::InvalidUtf8,
        ),
        headers_from(bytes, false) == Err::<(HeaderSeq, Seq<u8>), ReadError>(
            ReadError::Incomplete,
        ),
{
    law_line(bytes, tail, closed);
}

/// The declared length is what the value of the first header named
/// `Content-Length`, in whatever case, denotes. A decimal number denotes itself.
pub proof fn law_declared_length(headers: HeaderSeq, i: int, n: nat)
    requires
        0 <= i < headers.len(),
        same_ignoring_case(headers[i].0, "content-length"@),
        forall|k: int|
            0 <= k < i ==> !same_ignoring_case((#[trigger] headers[k]).0, "content-length"@),
    ensures
        content_length(headers) == number_in(headers[i].1, usize::MAX as nat),
        n <= usize::MAX && headers[i].1 == decimal(n) ==> content_length(headers) == Some(n),
{
    let p = |h: (Seq<char>, Seq<char>)| same_ignoring_case(h.0, "content-length"@);
    assert forall|k: int| 0 <= k < i implies !p(#[trigger] headers[k]) by {}
    lemma_is_first_where(headers, p, i);
    let none = Seq::<char>::empty();
    law_number(none, none, n, usize::MAX as nat);
    assert(none + none + decimal(n) =~= decimal(n));
}

/// Headers none of which is named `Content-Length` declare no length.
pub proof fn law_no_declared_length(headers: HeaderSeq)
    requires
        forall|k: int|
            0 <= k < headers.len() ==> !same_ignoring_case(
                (#[trigger] headers[k]).0,
                "content-length"@,
            ),
    ensures
        content_length(headers) is None,
{
    let p = |h: (Seq<char>, Seq<char>)| same_ignoring_case(h.0, "content-length"@);
    assert forall|k: int| 0 <= k < headers.len() implies !p(#[trigger] headers[k]) by {}
    lemma_none_where(headers, p);
}

/// A request is read from its line, its headers and as many bytes as they
/// declare, none where they declare no length. The method is the first word of
/// the line and the path the second; a missing method is empty, a missing path
/// is `/`. What follows is left.
pub proof fn law_request_is_read(
    line: Seq<char>,
    after_line: Seq<u8>,
    headers: HeaderSeq,
    body: Seq<u8>,
    rest: Seq<u8>,
    closed: bool,
)
    requires
        !line.contains('\n'),
        headers_from(after_line, closed) == Ok::<(HeaderSeq, Seq<u8>), ReadError>(
            (headers, body + rest),
        ),
        match content_length(headers) {
            Some(n) => n == body.len() && n <= isize::MAX,
            None => body.len() == 0,
        },
    ensures
        request_from(encode_utf8(line + seq!['\n']) + after_line, closed) matches Ok((request, left))
            && {
            &&& words(line).len() == 0 ==> request.method == Seq::<char>::empty()
            &&& words(line).len() > 0 ==> request.method == words(line)[0]
            &&& words(line).len() < 2 ==> request.path == seq!['/']
            &&& words(line).len() >= 2 ==> request.path == words(line)[1]
            &&& request.headers == headers
            &&& request.body == body
            &&& left == rest
        },
{
    reveal_strlit("/");
    assert("/"@ =~= seq!['/']);
    assert(line + seq!['\n'] =~= line.push('\n'));
    lemma_one_line(line);
    lemma_line_reads_back(line, after_line, closed);
    lemma_words_without_newline(line);
    let n = body.len() as int;
    assert((body + rest).take(n) =~= body);
    assert((body + rest).skip(n) =~= rest);
    if n == 0 {
        assert(body =~= Seq::empty());
        assert(body + rest =~= rest);
    }
}

/// A request is refused where its headers are, where they declare a length that
/// no buffer can have, and where the connection ends before as many bytes have
/// come. As long as more can follow, it is waited for.
pub proof fn law_request_is_refused(line: Seq<char>, after_line: Seq<u8>, closed: bool)
    requires
        !line.contains('\n'),
    ensures
        match headers_from(after_line, closed) {
            Err(e) => request_from(encode_utf8(line + seq!['\n']) + after_line, closed) == Err::<
                (RequestModel, Seq<u8>),
                ReadError,
            >(e),
            Ok((headers, body)) => content_length(headers) matches Some(n) ==> (n > isize::MAX || n
                > body.len()) ==> request_from(
                encode_utf8(line + seq!['\n']) + after_line,
                closed,
            ) == Err::<(RequestModel, Seq<u8>), ReadError>(
                if n > isize::MAX {
                    ReadError::BodyTooLarge
                } else if closed {
                    ReadError::UnexpectedEof
                } else {
                    ReadError::Incomplete
                },
            ),
        },
{
    assert(line + seq!['\n'] =~= line.push('\n'));
    lemma_one_line(line);
    lemma_line_reads_back(line, after_line, closed);
}

/// A newline adds no word to a line.
proof fn lemma_words_without_newline(line: Seq<char>)
    ensures
        words(line.push('\n')) == words(line),
    decreases line.len(),
{
    let s = line.push('\n');
    if line.len() == 0 {
        assert(s.first() == '\n');
        assert(s.drop_first() =~= line);
    } else if is_white_space(line.first()) {
        assert(s.first() == line.first());
        assert(s.drop_first() =~= line.drop_first().push('\n'));
        lemma_words_without_newline(line.drop_first());
    } else {
        let n = word_len(line) as int;
        lemma_word_len(line);
        lemma_word_len_pushed(line);
        assert(s.first() == line.first());
        assert(s.take(n) =~= line.take(n));
        assert(s.skip(n) =~= line.skip(n).push('\n'));
        lemma_words_without_newline(line.skip(n));
    }
}

proof fn lemma_word_len_pushed(line: Seq<char>)
    ensures
        word_len(line.push('\n')) == word_len(line),
    decreases line.len(),
{
    let s = line.push('\n');
    if line.len() == 0 {
        assert(s.first() == '\n');
    } else {
        assert(s.first() == line.first());
        if !is_white_space(line.first()) {
            assert(s.drop_first() =~= line.drop_first().push('\n'));
            lemma_word_len_pushed(line.drop_first());
        }
    }
}

/// A response is read from its line, its headers and as many bytes as they
/// declare. Where they declare no length, the body is all that follows the head
/// until the connection ends, and until then it is waited for.
pub proof fn law_response_is_read(
    line: Seq<char>,
    after_line: Seq<u8>,
    headers: HeaderSeq,
    body: Seq<u8>,
    rest: Seq<u8>,
    closed: bool,
)
    requires
        !line.contains('\n'),
        headers_from(after_line, closed) == Ok::<(HeaderSeq, Seq<u8>), ReadError>(
            (headers, body + rest),
        ),
        match content_length(headers) {
            Some(n) => n == body.len() && n <= isize::MAX,
            None => rest.len() == 0,
        },
    ensures
        content_length(headers) is None && !closed ==> response_from(
            encode_utf8(line + seq!['\n']) + after_line,
            closed,
        ) == Err::<(ResponseModel, Seq<u8>), ReadError>(ReadError::Incomplete),
        content_length(headers) is Some || closed ==> (response_from(
            encode_utf8(line + seq!['\n']) + after_line,
            closed,
        ) matches Ok((response, left)) && {
            &&& words(line).len() < 2 ==> response.status == 0
            &&& words(line).len() >= 2 ==> match number_in(words(line)[1], 65535) {
                Some(n) => response.status == n,
                None => response.status == 0,
            }
            &&& response.headers == headers
            &&& response.body == body
            &&& left == rest
        }),
{
    assert(line + seq!['\n'] =~= line.push('\n'));
    lemma_one_line(line);
    lemma_line_reads_back(line, after_line, closed);
    lemma_words_without_newline(line);
    let n = body.len() as int;
    assert((body + rest).take(n) =~= body);
    assert((body + rest).skip(n) =~= rest);
    if rest.len() == 0 {
        assert(rest =~= Seq::empty());
        assert(body + rest =~= body);
    }
}

/// A response is refused where its headers are, where they declare a length
/// that no buffer can have, and where the connection ends before as many bytes
/// have come. As long as more can follow, it is waited for.
pub proof fn law_response_is_refused(line: Seq<char>, after_line: Seq<u8>, closed: bool)
    requires
        !line.contains('\n'),
    ensures
        match headers_from(after_line, closed) {
            Err(e) => response_from(encode_utf8(line + seq!['\n']) + after_line, closed) == Err::<
                (ResponseModel, Seq<u8>),
                ReadError,
            >(e),
            Ok((headers, body)) => content_length(headers) matches Some(n) ==> (n > isize::MAX || n
                > body.len()) ==> response_from(
                encode_utf8(line + seq!['\n']) + after_line,
                closed,
            ) == Err::<(ResponseModel, Seq<u8>), ReadError>(
                if n > isize::MAX {
                    ReadError::BodyTooLarge
                } else if closed {
                    ReadError::UnexpectedEof
                } else {
                    ReadError::Incomplete
                },
            ),
        },
{
    assert(line + seq!['\n'] =~= line.push('\n'));
    lemma_one_line(line);
    lemma_line_reads_back(line, after_line, closed);
}

/// A first line that is not valid UTF-8 is refused, and one whose end has not
/// come is waited for. Where the connection ends within it, it is read as if
/// its end had come.
pub proof fn law_first_line(bytes: Seq<u8>, tail: Seq<u8>, closed: bool)
    requires
        !bytes.contains(10u8),
    ensures
        !valid_utf8(bytes.push(10u8)) ==> request_from(bytes.push(10u8) + tail, closed) == Err::<
            (RequestModel, Seq<u8>),
            ReadError,
        >(ReadError::InvalidUtf8),
        !valid_utf8(bytes.push(10u8)) ==> response_from(bytes.push(10u8) + tail, closed) == Err::<
            (ResponseModel, Seq<u8>),
            ReadError,
        >(ReadError::InvalidUtf8),
        !valid_utf8(bytes) ==> request_from(bytes, true) == Err::<
            (RequestModel, Seq<u8>),
            ReadError,
        >(ReadError::InvalidUtf8),
        !valid_utf8(bytes) ==> response_from(bytes, true) == Err::<
            (ResponseModel, Seq<u8>),
            ReadError,
        >(ReadError::InvalidUtf8),
        request_from(bytes, false) == Err::<(RequestModel, Seq<u8>), ReadError>(
            ReadError::Incomplete,
        ),
        response_from(bytes, false) == Err::<(ResponseModel, Seq<u8>), ReadError>(
            ReadError::Incomplete,
        ),
        forall|line: Seq<char>|
            #![trigger encode_utf8(line)]
            bytes == encode_utf8(line) ==> request_from(bytes, true) == request_from(
                bytes.push(10u8),
                true,
            ) && response_from(bytes, true) == response_from(bytes.push(10u8), true),
{
    let none = Seq::<u8>::empty();
    law_line(bytes, tail, closed);
    assert forall|line: Seq<char>|
        #![trigger encode_utf8(line)]
        bytes == encode_utf8(line) implies request_from(bytes, true) == request_from(
        bytes.push(10u8),
        true,
    ) && response_from(bytes, true) == response_from(bytes.push(10u8), true) by {
        law_line(bytes, none, true);
        assert(bytes.push(10u8) + none =~= bytes.push(10u8));
        encode_utf8_valid_utf8(line);
        encode_utf8_decode_utf8(line);
        lemma_encode_concat(line, seq!['\n']);
        lemma_encode_ascii('\n');
        assert(line + seq!['\n'] =~= line.push('\n'));
        assert(bytes.push(10u8) =~= encode_utf8(line.push('\n')));
        encode_utf8_valid_utf8(line.push('\n'));
        encode_utf8_decode_utf8(line.push('\n'));
        lemma_words_without_newline(line);
    }
}

/// Lines that write headers one after the other.
pub proof fn lemma_header_lines(headers: HeaderSeq)
    ensures
        header_lines(headers) == headers.flat_map(
            |h: (Seq<char>, Seq<char>)| h.0 + ": "@ + h.1 + "\r\n"@,
        ),
    decreases headers.len(),
{
    let f = |h: (Seq<char>, Seq<char>)| h.0 + ": "@ + h.1 + "\r\n"@;
    if headers.len() == 0 {
        assert(headers.map_values(f) =~= Seq::empty());
        assert(headers.flat_map(f) =~= Seq::empty());
    } else {
        let front = headers.drop_last();
        lemma_header_lines(front);
        front.lemma_flat_map_push(f, headers.last());
        assert(front.push(headers.last()) =~= headers);
        assert(f(headers.last()) == header_line(headers.last()));
    }
}

/// Headers with nothing to trim, written one to a line and followed by an empty
/// line, are read as they are: all of them, in order.
pub proof fn law_headers_are_read(headers: HeaderSeq, tail: Seq<u8>, closed: bool)
    requires
        forall|k: int|
            0 <= k < headers.len() ==> {
                &&& trimmed((#[trigger] headers[k]).0) == headers[k].0
                &&& trimmed(headers[k].1) == headers[k].1
                &&& !headers[k].0.contains('\n') && !headers[k].0.contains(':')
                &&& !headers[k].1.contains('\n')
            },
    ensures
        headers_from(
            encode_utf8(
                headers.flat_map(|h: (Seq<char>, Seq<char>)| h.0 + ": "@ + h.1 + "\r\n"@)
                    + "\r\n"@,
            ) + tail,
            closed,
        ) == Ok::<(HeaderSeq, Seq<u8>), ReadError>((headers, tail)),
{
    lemma_header_lines(headers);
    assert forall|k: int| 0 <= k < headers.len() implies fits_line(#[trigger] headers[k]) by {
        let h = headers[k];
        lemma_one_line(h.0);
        lemma_one_line(h.1);
        assert forall|i: int| 0 <= i < h.0.len() implies #[trigger] h.0[i] != ':' by {
            assert(h.0.contains(h.0[i]));
        }
    }
    assert(all_on_one_line(headers));
    lemma_fitting_headers_are_kept(headers);
    lemma_head_is_read(headers, tail, closed);
}

/// The words of a line that begins with two of them.
proof fn lemma_two_words(a: Seq<char>, b: Seq<char>, end: Seq<char>)
    requires
        is_word(a),
        is_word(b),
    ensures
        words(a + seq![' '] + b + seq![' '] + end) == seq![a, b] + words(end),
{
    let rest = b.push(' ') + end;
    assert(a + seq![' '] + b + seq![' '] + end =~= a.push(' ') + rest);
    lemma_words_cons(a, ' ', rest);
    lemma_words_cons(b, ' ', end);
    assert(seq![a] + (seq![b] + words(end)) =~= seq![a, b] + words(end));
}

proof fn lemma_two_words_on_one_line(a: Seq<char>, b: Seq<char>, end: Seq<char>)
    requires
        is_word(a),
        is_word(b),
        !end.contains('\n'),
    ensures
        !(a + seq![' '] + b + seq![' '] + end).contains('\n'),
{
    let line = a + seq![' '] + b + seq![' '] + end;
    lemma_word_fits(a);
    lemma_word_fits(b);
    lemma_one_line(end);
    assert forall|i: int| 0 <= i < line.len() implies #[trigger] line[i] != '\n' by {
        let m = a.len() as int;
        let k = b.len() as int;
        if i < m {
            assert(line[i] == a[i]);
        } else if m < i <= m + k {
            assert(line[i] == b[i - m - 1]);
        } else if m + k + 1 < i {
            assert(line[i] == end[i - m - k - 2]);
        }
    }
    lemma_one_line(line);
}

/// A request with a body is read as it was sent: a method, a path and a version
/// on a line, headers on the lines after it, and a body as long as the first
/// `Content-Length` says, in whatever case its name is written.
pub proof fn law_request_with_length(
    method: Seq<char>,
    path: Seq<char>,
    version: Seq<char>,
    headers: HeaderSeq,
    i: int,
    body: Seq<u8>,
    rest: Seq<u8>,
    closed: bool,
)
    requires
        method.len() > 0 && path.len() > 0,
        forall|k: int| 0 <= k < method.len() ==> !is_white_space(#[trigger] method[k]),
        forall|k: int| 0 <= k < path.len() ==> !is_white_space(#[trigger] path[k]),
        !version.contains('\n'),
        forall|k: int|
            0 <= k < headers.len() ==> {
                &&& trimmed((#[trigger] headers[k]).0) == headers[k].0
                &&& trimmed(headers[k].1) == headers[k].1
                &&& !headers[k].0.contains('\n') && !headers[k].0.contains(':')
                &&& !headers[k].1.contains('\n')
            },
        0 <= i < headers.len(),
        same_ignoring_case(headers[i].0, "content-length"@),
        forall|k: int|
            0 <= k < i ==> !same_ignoring_case((#[trigger] headers[k]).0, "content-length"@),
        headers[i].1 == decimal(body.len()),
        body.len() <= isize::MAX,
    ensures
        request_from(
            encode_utf8(method + seq![' '] + path + seq![' '] + version + seq!['\n']) + (
            encode_utf8(
                headers.flat_map(|h: (Seq<char>, Seq<char>)| h.0 + ": "@ + h.1 + "\r\n"@)
                    + "\r\n"@,
            ) + (body + rest)),
            closed,
        ) == Ok::<(RequestModel, Seq<u8>), ReadError>(
            (RequestModel { method, path, headers, body }, rest),
        ),
{
    let line = method + seq![' '] + path + seq![' '] + version;
    lemma_two_words(method, path, version);
    lemma_two_words_on_one_line(method, path, version);
    law_headers_are_read(headers, body + rest, closed);
    law_declared_length(headers, i, body.len());
    let after_line = encode_utf8(
        headers.flat_map(|h: (Seq<char>, Seq<char>)| h.0 + ": "@ + h.1 + "\r\n"@) + "\r\n"@,
    ) + (body + rest);
    law_request_is_read(line, after_line, headers, body, rest, closed);
}

/// A request without a `Content-Length` is read without a body: all that
/// follows its head is left.
pub proof fn law_request_without_length(
    method: Seq<char>,
    path: Seq<char>,
    version: Seq<char>,
    headers: HeaderSeq,
    rest: Seq<u8>,
    closed: bool,
)
    requires
        method.len() > 0 && path.len() > 0,
        forall|k: int| 0 <= k < method.len() ==> !is_white_space(#[trigger] method[k]),
        forall|k: int| 0 <= k < path.len() ==> !is_white_space(#[trigger] path[k]),
        !version.contains('\n'),
        forall|k: int|
            0 <= k < headers.len() ==> {
                &&& trimmed((#[trigger] headers[k]).0) == headers[k].0
                &&& trimmed(headers[k].1) == headers[k].1
                &&& !headers[k].0.contains('\n') && !headers[k].0.contains(':')
                &&& !headers[k].1.contains('\n')
                &&& !same_ignoring_case(headers[k].0, "content-length"@)
            },
    ensures
        request_from(
            encode_utf8(method + seq![' '] + path + seq![' '] + version + seq!['\n']) + (
            encode_utf8(
                headers.flat_map(|h: (Seq<char>, Seq<char>)| h.0 + ": "@ + h.1 + "\r\n"@)
                    + "\r\n"@,
            ) + rest),
            closed,
        ) == Ok::<(RequestModel, Seq<u8>), ReadError>(
            (RequestModel { method, path, headers, body: Seq::empty() }, rest),
        ),
{
    let line = method + seq![' '] + path + seq![' '] + version;
    let none = Seq::<u8>::empty();
    lemma_two_words(method, path, version);
    lemma_two_words_on_one_line(method, path, version);
    law_headers_are_read(headers, rest, closed);
    law_no_declared_length(headers);
    let after_line = encode_utf8(
        headers.flat_map(|h: (Seq<char>, Seq<char>)| h.0 + ": "@ + h.1 + "\r\n"@) + "\r\n"@,
    ) + rest;
    assert(none + rest =~= rest);
    law_request_is_read(line, after_line, headers, none, rest, closed);
}

/// A response is read as it was sent: a version, a status and a reason on a
/// line, headers on the lines after it, and a body as long as the first
/// `Content-Length` says, in whatever case its name is written.
pub proof fn law_response_with_length(
    version: Seq<char>,
    status: u16,
    reason: Seq<char>,
    headers: HeaderSeq,
    i: int,
    body: Seq<u8>,
    rest: Seq<u8>,
    closed: bool,
)
    requires
        version.len() > 0,
        forall|k: int| 0 <= k < version.len() ==> !is_white_space(#[trigger] version[k]),
        !reason.contains('\n'),
        forall|k: int|
            0 <= k < headers.len() ==> {
                &&& trimmed((#[trigger] headers[k]).0) == headers[k].0
                &&& trimmed(headers[k].1) == headers[k].1
                &&& !headers[k].0.contains('\n') && !headers[k].0.contains(':')
                &&& !headers[k].1.contains('\n')
            },
        0 <= i < headers.len(),
        same_ignoring_case(headers[i].0, "content-length"@),
        forall|k: int|
            0 <= k < i ==> !same_ignoring_case((#[trigger] headers[k]).0, "content-length"@),
        headers[i].1 == decimal(body.len()),
        body.len() <= isize::MAX,
    ensures
        response_from(
            encode_utf8(
                version + seq![' '] + decimal(status as nat) + seq![' '] + reason + seq!['\n'],
            ) + (encode_utf8(
                headers.flat_map(|h: (Seq<char>, Seq<char>)| h.0 + ": "@ + h.1 + "\r\n"@)
                    + "\r\n"@,
            ) + (body + rest)),
            closed,
        ) == Ok::<(ResponseModel, Seq<u8>), ReadError>(
            (ResponseModel { status, headers, body }, rest),
        ),
{
    let line = version + seq![' '] + decimal(status as nat) + seq![' '] + reason;
    lemma_decimal_reads_back(status as nat, 65535);
    lemma_two_words(version, decimal(status as nat), reason);
    lemma_two_words_on_one_line(version, decimal(status as nat), reason);
    law_headers_are_read(headers, body + rest, closed);
    law_declared_length(headers, i, body.len());
    let after_line = encode_utf8(
        headers.flat_map(|h: (Seq<char>, Seq<char>)| h.0 + ": "@ + h.1 + "\r\n"@) + "\r\n"@,
    ) + (body + rest);
    law_response_is_read(line, after_line, headers, body, rest, closed);
}

/// A response without a `Content-Length` is read once the connection has ended,
/// and its body is then every byte that followed its head.
pub proof fn law_response_until_the_end(
    version: Seq<char>,
    status: u16,
    reason: Seq<char>,
    headers: HeaderSeq,
    body: Seq<u8>,
    closed: bool,
)
    requires
        version.len() > 0,
        forall|k: int| 0 <= k < version.len() ==> !is_white_space(#[trigger] version[k]),
        !reason.contains('\n'),
        forall|k: int|
            0 <= k < headers.len() ==> {
                &&& trimmed((#[trigger] headers[k]).0) == headers[k].0
                &&& trimmed(headers[k].1) == headers[k].1
                &&& !headers[k].0.contains('\n') && !headers[k].0.contains(':')
                &&& !headers[k].1.contains('\n')
                &&& !same_ignoring_case(headers[k].0, "content-length"@)
            },
    ensures
        response_from(
            encode_utf8(
                version + seq![' '] + decimal(status as nat) + seq![' '] + reason + seq!['\n'],
            ) + (encode_utf8(
                headers.flat_map(|h: (Seq<char>, Seq<char>)| h.0 + ": "@ + h.1 + "\r\n"@)
                    + "\r\n"@,
            ) + body),
            closed,
        ) == if closed {
            Ok::<(ResponseModel, Seq<u8>), ReadError>(
                (ResponseModel { status, headers, body }, Seq::empty()),
            )
        } else {
            Err(ReadError::Incomplete)
        },
{
    let line = version + seq![' '] + decimal(status as nat) + seq![' '] + reason;
    let none = Seq::<u8>::empty();
    lemma_decimal_reads_back(status as nat, 65535);
    lemma_two_words(version, decimal(status as nat), reason);
    lemma_two_words_on_one_line(version, decimal(status as nat), reason);
    law_headers_are_read(headers, body, closed);
    law_no_declared_length(headers);
    let after_line = encode_utf8(
        headers.flat_map(|h: (Seq<char>, Seq<char>)| h.0 + ": "@ + h.1 + "\r\n"@) + "\r\n"@,
    ) + body;
    assert(body + none =~= body);
    law_response_is_read(line, after_line, headers, body, none, closed);
}

} // verus!
