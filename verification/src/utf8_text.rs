//! Text as UTF-8 bytes: reading it, writing it, and where its lines end.
use vstd::prelude::*;
use vstd::string::*;
use vstd::utf8::*;

use crate::text::{decimal, digit_char};

verus! {

/// `String::from_utf8`: the text that `bytes` encode, where they are valid
/// UTF-8, and nothing otherwise. That the standard library accepts exactly the
/// valid encodings and decodes them as UTF-8 is believed, not proved.
#[verifier::external_body]
pub(crate) fn text_from_utf8(bytes: Vec<u8>) -> (r: Option<String>)
    ensures
        match r {
            Some(s) => valid_utf8(bytes@) && s@ == decode_utf8(bytes@),
            None => !valid_utf8(bytes@),
        },
{
    String::from_utf8(bytes).ok()
}

/// The encoding of a text is that of its parts, one after the other.
pub proof fn lemma_encode_concat(a: Seq<char>, b: Seq<char>)
    ensures
        encode_utf8(a + b) == encode_utf8(a) + encode_utf8(b),
    decreases a.len(),
{
    if a.len() == 0 {
        assert(a + b =~= b);
        assert(encode_utf8(a) + encode_utf8(b) =~= encode_utf8(b));
    } else {
        lemma_encode_concat(a.drop_first(), b);
        assert((a + b).drop_first() =~= a.drop_first() + b);
        assert(encode_utf8(a + b) =~= encode_utf8(a) + encode_utf8(b));
    }
}

/// An ASCII character is encoded as the one byte of its value.
pub proof fn lemma_encode_ascii(c: char)
    requires
        c <= '\u{7f}',
    ensures
        encode_utf8(seq![c]) == seq![c as u8],
{
    let s = seq![c];
    assert(is_ascii_chars(s));
    is_ascii_chars_encode_utf8(s);
    assert(encode_utf8(s) =~= seq![c as u8]);
}

/// A character other than the newline is encoded without a newline byte.
proof fn lemma_scalar_without_newline(c: char)
    requires
        c != '\n',
    ensures
        forall|i: int|
            0 <= i < encode_scalar(c as u32).len() ==> #[trigger] encode_scalar(c as u32)[i]
                != 10u8,
{
    let v = c as u32;
    assert(v != 10);
    char_is_scalar(c);
    assert(has_width_1_encoding(v) && v != 10 ==> leading_byte_width_1(v) != 10u8) by (bit_vector);
    assert(leading_byte_width_2(v) != 10u8) by (bit_vector);
    assert(leading_byte_width_3(v) != 10u8) by (bit_vector);
    assert(leading_byte_width_4(v) != 10u8) by (bit_vector);
    assert(last_continuation_byte(v) != 10u8) by (bit_vector);
    assert(second_last_continuation_byte(v) != 10u8) by (bit_vector);
    assert(third_last_continuation_byte(v) != 10u8) by (bit_vector);
}

/// The text `s` holds no newline.
pub open spec fn one_line(s: Seq<char>) -> bool {
    forall|i: int| 0 <= i < s.len() ==> #[trigger] s[i] != '\n'
}

/// A text without a newline is encoded without a newline byte.
pub proof fn lemma_encode_one_line(s: Seq<char>)
    requires
        one_line(s),
    ensures
        forall|i: int| 0 <= i < encode_utf8(s).len() ==> #[trigger] encode_utf8(s)[i] != 10u8,
    decreases s.len(),
{
    if s.len() > 0 {
        assert(s[0] != '\n');
        lemma_scalar_without_newline(s[0]);
        assert(one_line(s.drop_first()));
        lemma_encode_one_line(s.drop_first());
        let head = encode_scalar(s[0] as u32);
        let tail = encode_utf8(s.drop_first());
        assert forall|i: int| 0 <= i < encode_utf8(s).len() implies #[trigger] encode_utf8(s)[i]
            != 10u8 by {
            if i < head.len() {
                assert(encode_utf8(s)[i] == head[i]);
            } else {
                assert(encode_utf8(s)[i] == tail[i - head.len()]);
            }
        }
    }
}

/// Appends the bytes `more` to `out`.
pub fn push_bytes(out: &mut Vec<u8>, more: &[u8])
    ensures
        final(out)@ == old(out)@ + more@,
{
    out.extend_from_slice(more);
    assert(out@ =~= old(out)@ + more@);
}

/// Appends the text `s` to `out`.
pub fn push_text(out: &mut Vec<u8>, s: &str)
    ensures
        final(out)@ == old(out)@ + encode_utf8(s@),
{
    push_bytes(out, s.as_bytes());
}

/// Appends the number `n` in decimal notation to `out`.
pub fn push_decimal(out: &mut Vec<u8>, n: usize)
    ensures
        final(out)@ == old(out)@ + encode_utf8(decimal(n as nat)),
    decreases n,
{
    if n >= 10 {
        push_decimal(out, n / 10);
    }
    let ghost head = out@;
    out.push(48 + (n % 10) as u8);
    proof {
        let c = digit_char((n % 10) as nat);
        lemma_encode_ascii(c);
        if n >= 10 {
            lemma_encode_concat(decimal((n / 10) as nat), seq![c]);
            assert(decimal(n as nat) =~= decimal((n / 10) as nat) + seq![c]);
        } else {
            assert(decimal(n as nat) =~= seq![c]);
        }
        assert(out@ =~= old(out)@ + encode_utf8(decimal(n as nat)));
    }
}

} // verus!
