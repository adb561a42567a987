//! The receiving end of a connection: the bytes that have arrived and are yet
//! to be read, and whether more can follow.
use vstd::prelude::*;
use vstd::slice::*;
use vstd::utf8::*;

use crate::utf8_text::text_from_utf8;

verus! {

/// Why a message could not be read.
#[derive(Debug, Clone, Copy, PartialEq, Eq, Structural)]
pub enum ReadError {
    /// What has arrived is the beginning of a message, and more may follow.
    Incomplete,
    /// A line of the message head is not valid UTF-8.
    InvalidUtf8,
    /// The connection ended within a body of declared length.
    UnexpectedEof,
    /// The declared length is one that no buffer can have.
    BodyTooLarge,
}

/// The bytes that have arrived and were not read yet; `closed` once the peer
/// has sent its last.
#[derive(Debug)]
pub struct Reader {
    pub unread: Vec<u8>,
    pub closed: bool,
}

impl Reader {
    /// All of the input at once: `bytes`, and nothing after them.
    pub fn new(bytes: &[u8]) -> (r: Reader)
        ensures
            r.unread@ == bytes@,
            r.closed,
    {
        Reader { unread: slice_to_vec(bytes), closed: true }
    }

    /// A connection on which nothing has arrived yet.
    pub fn open() -> (r: Reader)
        ensures
            r.unread@ == Seq::<u8>::empty(),
            !r.closed,
    {
        Reader { unread: Vec::new(), closed: false }
    }

    /// Takes in what one read of the connection gave. An empty chunk says that
    /// the peer has sent its last.
    pub fn feed(&mut self, chunk: &[u8])
        ensures
            final(self).unread@ == old(self).unread@ + chunk@,
            final(self).closed == (old(self).closed || chunk@.len() == 0),
    {
        self.unread.extend_from_slice(chunk);
        assert(self.unread@ =~= old(self).unread@ + chunk@);
        if chunk.len() == 0 {
            self.closed = true;
        }
    }
}

/// The position of the first newline byte of `s`, or the length of `s` where
/// it has none.
pub open spec fn newline_at(s: Seq<u8>) -> nat
    decreases s.len(),
{
    if s.len() == 0 || s.first() == 10u8 {
        0
    } else {
        1 + newline_at(s.drop_first())
    }
}

/// The length of the first line of `s`, its newline included.
pub open spec fn line_len(s: Seq<u8>) -> nat {
    if newline_at(s) < s.len() {
        newline_at(s) + 1
    } else {
        s.len()
    }
}

/// The first line of `s`, with its newline, and what follows it. A line ends
/// with its newline, or where the input ends.
pub open spec fn line_from(s: Seq<u8>, closed: bool) -> Result<(Seq<char>, Seq<u8>), ReadError> {
    let n = line_len(s) as int;
    if newline_at(s) == s.len() && !closed {
        Err(ReadError::Incomplete)
    } else if valid_utf8(s.take(n)) {
        Ok((decode_utf8(s.take(n)), s.skip(n)))
    } else {
        Err(ReadError::InvalidUtf8)
    }
}

/// `newline_at` is the position of a newline byte that none precedes, or the
/// length where there is none.
pub proof fn lemma_newline_at(s: Seq<u8>)
    ensures
        newline_at(s) <= s.len(),
        newline_at(s) < s.len() ==> s[newline_at(s) as int] == 10u8,
        forall|i: int| 0 <= i < newline_at(s) ==> #[trigger] s[i] != 10u8,
    decreases s.len(),
{
    if s.len() > 0 && s.first() != 10u8 {
        let rest = s.drop_first();
        lemma_newline_at(rest);
        assert forall|i: int| 0 <= i < newline_at(s) implies #[trigger] s[i] != 10u8 by {
            if i > 0 {
                assert(s[i] == rest[i - 1]);
            }
        }
        if newline_at(s) < s.len() {
            assert(s[newline_at(s) as int] == rest[newline_at(rest) as int]);
        }
    }
}

/// The position of a newline byte that none precedes is `newline_at`.
pub proof fn lemma_is_newline_at(s: Seq<u8>, n: int)
    requires
        0 <= n <= s.len(),
        n < s.len() ==> s[n] == 10u8,
        forall|i: int| 0 <= i < n ==> #[trigger] s[i] != 10u8,
    ensures
        newline_at(s) == n,
{
    lemma_newline_at(s);
    if newline_at(s) < n {
        assert(s[newline_at(s) as int] != 10u8);
    }
}

/// A line goes up to the first newline byte, which is part of it. Bytes without
/// a newline are a line once nothing more can follow, and part of one until
/// then. A line that is not valid UTF-8 is refused.
pub proof fn law_line(bytes: Seq<u8>, tail: Seq<u8>, closed: bool)
    requires
        !bytes.contains(10u8),
    ensures
        line_from(bytes.push(10u8) + tail, closed) == if valid_utf8(bytes.push(10u8)) {
            Ok::<(Seq<char>, Seq<u8>), ReadError>((decode_utf8(bytes.push(10u8)), tail))
        } else {
            Err(ReadError::InvalidUtf8)
        },
        line_from(bytes, true) == if valid_utf8(bytes) {
            Ok::<(Seq<char>, Seq<u8>), ReadError>((decode_utf8(bytes), Seq::empty()))
        } else {
            Err(ReadError::InvalidUtf8)
        },
        line_from(bytes, false) == Err::<(Seq<char>, Seq<u8>), ReadError>(ReadError::Incomplete),
{
    let n = bytes.len() as int;
    let s = bytes.push(10u8) + tail;
    assert forall|i: int| 0 <= i < n implies #[trigger] bytes[i] != 10u8 by {
        assert(bytes.contains(bytes[i]));
    }
    assert forall|i: int| 0 <= i < n implies #[trigger] s[i] != 10u8 by {
        assert(s[i] == bytes[i]);
    }
    lemma_is_newline_at(bytes, n);
    lemma_is_newline_at(s, n);
    assert(s.take(n + 1) =~= bytes.push(10u8));
    assert(s.skip(n + 1) =~= tail);
    assert(bytes.take(n) =~= bytes);
    assert(bytes.skip(n) =~= Seq::empty());
}

/// Reads the first line of `input`.
pub fn read_line(input: &[u8], closed: bool) -> (r: Result<(String, &[u8]), ReadError>)
    ensures
        match line_from(input@, closed) {
            Ok((line, rest)) => r matches Ok(got) && got.0@ == line && got.1@ == rest,
            Err(e) => r matches Err(x) && x == e,
        },
{
    let mut n: usize = 0;
    while n < input.len() && input[n] != 10
        invariant
            n <= input@.len(),
            forall|i: int| 0 <= i < n ==> #[trigger] input@[i] != 10u8,
        decreases input.len() - n,
    {
        n = n + 1;
    }
    proof {
        lemma_is_newline_at(input@, n as int);
    }
    if n == input.len() && !closed {
        return Err(ReadError::Incomplete);
    }
    let end: usize = if n < input.len() {
        n + 1
    } else {
        n
    };
    let line = slice_to_vec(slice_subrange(input, 0, end));
    assert(input@.take(end as int) =~= input@.subrange(0, end as int));
    assert(input@.skip(end as int) =~= input@.subrange(end as int, input@.len() as int));
    match text_from_utf8(line) {
        Some(text) => Ok((text, slice_subrange(input, end, input.len()))),
        None => Err(ReadError::InvalidUtf8),
    }
}

} // verus!
