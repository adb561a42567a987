//! Text as sequences of characters: white space, words, ASCII case, decimal
//! numbers, and the passage between characters and their UTF-8 bytes.
use vstd::prelude::*;
use vstd::string::*;
use vstd::utf8::*;

verus! {

/// The characters with the Unicode property `White_Space`.
pub open spec fn is_white_space(c: char) -> bool {
    ||| '\u{9}' <= c <= '\u{d}'
    ||| c == ' '
    ||| c == '\u{85}'
    ||| c == '\u{a0}'
    ||| c == '\u{1680}'
    ||| '\u{2000}' <= c <= '\u{200a}'
    ||| c == '\u{2028}'
    ||| c == '\u{2029}'
    ||| c == '\u{202f}'
    ||| c == '\u{205f}'
    ||| c == '\u{3000}'
}

/// Whether `c` is white space.
pub fn white_space(c: char) -> (r: bool)
    ensures
        r == is_white_space(c),
{
    ('\u{9}' <= c && c <= '\u{d}') || c == ' ' || c == '\u{85}' || c == '\u{a0}' || c == '\u{1680}'
        || ('\u{2000}' <= c && c <= '\u{200a}') || c == '\u{2028}' || c == '\u{2029}' || c
        == '\u{202f}' || c == '\u{205f}' || c == '\u{3000}'
}

/// The two characters that end a line.
pub open spec fn is_line_end(c: char) -> bool {
    c == '\r' || c == '\n'
}

/// `s` without the longest suffix whose characters all satisfy `p`.
pub open spec fn trim_end_where(s: Seq<char>, p: spec_fn(char) -> bool) -> Seq<char>
    decreases s.len(),
{
    if s.len() > 0 && p(s.last()) {
        trim_end_where(s.drop_last(), p)
    } else {
        s
    }
}

/// `s` without the longest prefix whose characters all satisfy `p`.
pub open spec fn trim_start_where(s: Seq<char>, p: spec_fn(char) -> bool) -> Seq<char>
    decreases s.len(),
{
    if s.len() > 0 && p(s.first()) {
        trim_start_where(s.drop_first(), p)
    } else {
        s
    }
}

/// `s` without white space at either end.
pub open spec fn trimmed(s: Seq<char>) -> Seq<char> {
    trim_start_where(trim_end_where(s, |c: char| is_white_space(c)), |c: char| is_white_space(c))
}

/// `s` without carriage returns and newlines at its end.
pub open spec fn without_line_end(s: Seq<char>) -> Seq<char> {
    trim_end_where(s, |c: char| is_line_end(c))
}

/// The characters of `s`, in order.
pub fn chars_of(s: &str) -> (v: Vec<char>)
    ensures
        v@ == s@,
{
    let mut v: Vec<char> = Vec::new();
    for c in it: s.chars()
        invariant
            v@ == it.seq().take(it.index()),
            it.seq() == s@,
    {
        v.push(c);
    }
    v
}

/// `s` without carriage returns and newlines at its end.
pub fn trim_line_end(s: &str) -> (r: &str)
    ensures
        r@ == without_line_end(s@),
{
    let cs = chars_of(s);
    let mut n: usize = cs.len();
    assert(s@.take(n as int) =~= s@);
    while n > 0 && (cs[n - 1] == '\r' || cs[n - 1] == '\n')
        invariant
            n <= cs@.len(),
            cs@ == s@,
            without_line_end(s@) == without_line_end(s@.take(n as int)),
        decreases n,
    {
        assert(s@.take(n as int).drop_last() =~= s@.take(n - 1));
        n = n - 1;
    }
    assert(s@.take(n as int) =~= s@.subrange(0, n as int));
    s.substring_char(0, n)
}

/// `s` without white space at either end.
pub fn trim(s: &str) -> (r: &str)
    ensures
        r@ == trimmed(s@),
{
    let ghost p = |c: char| is_white_space(c);
    let cs = chars_of(s);
    let mut n: usize = cs.len();
    assert(s@.take(n as int) =~= s@);
    while n > 0 && white_space(cs[n - 1])
        invariant
            n <= cs@.len(),
            cs@ == s@,
            p == (|c: char| is_white_space(c)),
            trim_end_where(s@, p) == trim_end_where(s@.take(n as int), p),
        decreases n,
    {
        assert(s@.take(n as int).drop_last() =~= s@.take(n - 1));
        n = n - 1;
    }
    let ghost kept = s@.take(n as int);
    let mut i: usize = 0;
    assert(kept.skip(0) =~= kept);
    while i < n && white_space(cs[i])
        invariant
            i <= n <= cs@.len(),
            cs@ == s@,
            kept == s@.take(n as int),
            p == (|c: char| is_white_space(c)),
            trim_start_where(kept, p) == trim_start_where(kept.skip(i as int), p),
        decreases n - i,
    {
        assert(kept.skip(i as int).drop_first() =~= kept.skip(i + 1));
        i = i + 1;
    }
    assert(kept.skip(i as int) =~= s@.subrange(i as int, n as int));
    s.substring_char(i, n)
}

/// The number of characters of `s` before its first `mark`, or the length of
/// `s` where it has none.
pub open spec fn run_before(s: Seq<char>, mark: char) -> nat
    decreases s.len(),
{
    if s.len() == 0 || s.first() == mark {
        0
    } else {
        1 + run_before(s.drop_first(), mark)
    }
}

/// What stands before and after the first `mark` of `s`.
pub open spec fn split_at_first(s: Seq<char>, mark: char) -> Option<(Seq<char>, Seq<char>)> {
    let n = run_before(s, mark) as int;
    if n < s.len() {
        Some((s.take(n), s.skip(n + 1)))
    } else {
        None
    }
}

/// What stands before and after the first `mark` of `s`.
pub fn split_once(s: &str, mark: char) -> (r: Option<(&str, &str)>)
    ensures
        match split_at_first(s@, mark) {
            Some(parts) => r matches Some(found) && found.0@ == parts.0 && found.1@ == parts.1,
            None => r is None,
        },
{
    let cs = chars_of(s);
    let mut i: usize = 0;
    assert(s@.skip(0) =~= s@);
    while i < cs.len() && cs[i] != mark
        invariant
            i <= cs@.len(),
            cs@ == s@,
            run_before(s@, mark) == i + run_before(s@.skip(i as int), mark),
        decreases cs.len() - i,
    {
        assert(s@.skip(i as int).drop_first() =~= s@.skip(i + 1));
        i = i + 1;
    }
    if i < cs.len() {
        assert(s@.take(i as int) =~= s@.subrange(0, i as int));
        assert(s@.skip(i + 1) =~= s@.subrange(i + 1, s@.len() as int));
        Some((s.substring_char(0, i), s.substring_char(i + 1, cs.len())))
    } else {
        None
    }
}

/// The number of characters of `s` before its first white space, or the
/// length of `s` where it has none.
pub open spec fn word_len(s: Seq<char>) -> nat
    decreases s.len(),
{
    if s.len() == 0 || is_white_space(s.first()) {
        0
    } else {
        1 + word_len(s.drop_first())
    }
}

/// The words of `s`: its longest runs without white space, in order.
pub open spec fn words(s: Seq<char>) -> Seq<Seq<char>>
    decreases s.len(),
{
    if s.len() == 0 {
        seq![]
    } else if is_white_space(s.first()) {
        words(s.drop_first())
    } else {
        let n = word_len(s) as int;
        if 0 < n <= s.len() {
            seq![s.take(n)] + words(s.skip(n))
        } else {
            seq![]
        }
    }
}

pub proof fn lemma_word_len(s: Seq<char>)
    ensures
        word_len(s) <= s.len(),
        s.len() > 0 && !is_white_space(s.first()) ==> word_len(s) > 0,
    decreases s.len(),
{
    if s.len() > 0 && !is_white_space(s.first()) {
        lemma_word_len(s.drop_first());
    }
}

/// The word of `s` that `n` others precede.
pub fn nth_word(s: &str, n: usize) -> (r: Option<&str>)
    ensures
        if n < words(s@).len() {
            r matches Some(w) && w@ == words(s@)[n as int]
        } else {
            r is None
        },
{
    let cs = chars_of(s);
    let mut i: usize = 0;
    let mut seen: usize = 0;
    assert(s@.skip(0) =~= s@);
    assert(words(s@).skip(0) =~= words(s@));
    while i < cs.len()
        invariant
            i <= cs@.len(),
            cs@ == s@,
            seen <= n,
            seen <= words(s@).len(),
            words(s@.skip(i as int)) == words(s@).skip(seen as int),
        decreases cs.len() - i,
    {
        let ghost rest = s@.skip(i as int);
        if white_space(cs[i]) {
            assert(rest.drop_first() =~= s@.skip(i + 1));
            i = i + 1;
        } else {
            let mut j: usize = i;
            assert(s@.skip(j as int) =~= rest);
            while j < cs.len() && !white_space(cs[j])
                invariant
                    i <= j <= cs@.len(),
                    cs@ == s@,
                    word_len(s@.skip(i as int)) == (j - i) + word_len(s@.skip(j as int)),
                decreases cs.len() - j,
            {
                assert(s@.skip(j as int).drop_first() =~= s@.skip(j + 1));
                j = j + 1;
            }
            proof {
                lemma_word_len(rest);
                assert(word_len(rest) == j - i);
                assert(rest.take(j - i) =~= s@.subrange(i as int, j as int));
                assert(rest.skip(j - i) =~= s@.skip(j as int));
                assert(words(s@).skip(seen as int)[0] == rest.take(j - i));
                assert(words(rest).skip(1) =~= words(s@.skip(j as int)));
                assert(words(s@).skip(seen as int).skip(1) =~= words(s@).skip(seen + 1));
            }
            if seen == n {
                return Some(s.substring_char(i, j));
            }
            seen = seen + 1;
            i = j;
        }
    }
    None
}

/// `c`, or its lower case form where `c` is an ASCII capital.
pub open spec fn ascii_lower(c: char) -> char {
    if 'A' <= c <= 'Z' {
        (c as u32 + 32) as char
    } else {
        c
    }
}

/// `s` with every ASCII capital in lower case.
pub open spec fn ascii_lowercase(s: Seq<char>) -> Seq<char> {
    s.map_values(|c: char| ascii_lower(c))
}

/// `a` and `b` differ at most in the case of ASCII letters.
pub open spec fn same_ignoring_case(a: Seq<char>, b: Seq<char>) -> bool {
    ascii_lowercase(a) == ascii_lowercase(b)
}

/// `c`, or its lower case form where `c` is an ASCII capital.
pub fn to_ascii_lower(c: char) -> (r: char)
    ensures
        r == ascii_lower(c),
{
    if 'A' <= c && c <= 'Z' {
        (c as u8 + 32) as char
    } else {
        c
    }
}

/// Whether `a` and `b` differ at most in the case of ASCII letters.
pub fn eq_ignore_ascii_case(a: &str, b: &str) -> (r: bool)
    ensures
        r == same_ignoring_case(a@, b@),
{
    let xs = chars_of(a);
    let ys = chars_of(b);
    let ghost la = ascii_lowercase(a@);
    let ghost lb = ascii_lowercase(b@);
    if xs.len() != ys.len() {
        assert(la.len() != lb.len());
        return false;
    }
    let mut i: usize = 0;
    while i < xs.len()
        invariant
            i <= xs@.len() == ys@.len(),
            xs@ == a@,
            ys@ == b@,
            la == ascii_lowercase(a@),
            lb == ascii_lowercase(b@),
            forall|j: int| 0 <= j < i ==> la[j] == lb[j],
        decreases xs.len() - i,
    {
        if to_ascii_lower(xs[i]) != to_ascii_lower(ys[i]) {
            assert(la[i as int] != lb[i as int]);
            return false;
        }
        i = i + 1;
    }
    assert(la =~= lb);
    true
}

/// Whether `a` and `b` hold the same bytes.
pub fn same_bytes(a: &[u8], b: &[u8]) -> (r: bool)
    ensures
        r == (a@ == b@),
{
    if a.len() != b.len() {
        return false;
    }
    let mut i: usize = 0;
    while i < a.len()
        invariant
            i <= a@.len() == b@.len(),
            forall|j: int| 0 <= j < i ==> a@[j] == b@[j],
        decreases a.len() - i,
    {
        if a[i] != b[i] {
            return false;
        }
        i = i + 1;
    }
    assert(a@ =~= b@);
    true
}

/// Whether `a` and `b` hold the same characters.
pub fn same_text(a: &str, b: &str) -> (r: bool)
    ensures
        r == (a@ == b@),
{
    proof {
        encode_utf8_decode_utf8(a@);
        encode_utf8_decode_utf8(b@);
    }
    same_bytes(a.as_bytes(), b.as_bytes())
}

/// The character of the decimal digit `d`.
pub open spec fn digit_char(d: nat) -> char {
    ('0' as u32 + d) as char
}

/// `c` is a decimal digit.
pub open spec fn is_digit(c: char) -> bool {
    '0' <= c <= '9'
}

/// The number `n` in decimal notation, without leading zeros.
pub open spec fn decimal(n: nat) -> Seq<char>
    decreases n,
{
    if n < 10 {
        seq![digit_char(n)]
    } else {
        decimal(n / 10).push(digit_char(n % 10))
    }
}

/// The number that the digits `s` write in decimal notation.
pub open spec fn decimal_value(s: Seq<char>) -> nat
    decreases s.len(),
{
    if s.len() == 0 {
        0
    } else {
        10 * decimal_value(s.drop_last()) + (s.last() as u32 - '0' as u32) as nat
    }
}

/// The digits of `s`: all of it, but for one leading plus sign.
pub open spec fn unsigned_part(s: Seq<char>) -> Seq<char> {
    if s.len() > 0 && s.first() == '+' {
        s.drop_first()
    } else {
        s
    }
}

/// Every character of `s` is a decimal digit.
pub open spec fn all_digits(s: Seq<char>) -> bool {
    forall|i: int| 0 <= i < s.len() ==> is_digit(#[trigger] s[i])
}

/// The number that `s` denotes: one or more decimal digits, which a plus sign
/// may precede, of a value up to `max`.
pub open spec fn number_in(s: Seq<char>, max: nat) -> Option<nat> {
    let digits = unsigned_part(s);
    if digits.len() > 0 && all_digits(digits) && decimal_value(digits) <= max {
        Some(decimal_value(digits))
    } else {
        None
    }
}

proof fn lemma_decimal_value_grows(s: Seq<char>, i: int)
    requires
        0 <= i <= s.len(),
    ensures
        decimal_value(s.take(i)) <= decimal_value(s),
    decreases s.len() - i,
{
    if i < s.len() {
        lemma_decimal_value_grows(s, i + 1);
        assert(s.take(i + 1).drop_last() =~= s.take(i));
    } else {
        assert(s.take(i) =~= s);
    }
}

/// The number that `s` denotes, where it denotes one up to `max`.
pub fn parse_number(s: &str, max: usize) -> (r: Option<usize>)
    ensures
        match number_in(s@, max as nat) {
            Some(v) => r matches Some(found) && found == v,
            None => r is None,
        },
{
    let cs = chars_of(s);
    let start: usize = if cs.len() > 0 && cs[0] == '+' {
        1
    } else {
        0
    };
    let ghost digits = unsigned_part(s@);
    assert(digits =~= s@.skip(start as int));
    if start == cs.len() {
        return None;
    }
    let mut value: usize = 0;
    let mut i: usize = start;
    assert(digits.take(0) =~= Seq::<char>::empty());
    while i < cs.len()
        invariant
            start <= i <= cs@.len(),
            cs@ == s@,
            digits == s@.skip(start as int),
            digits == unsigned_part(s@),
            digits.len() > 0,
            value <= max,
            forall|j: int| 0 <= j < i - start ==> is_digit(#[trigger] digits[j]),
            value == decimal_value(digits.take(i - start)),
        decreases cs.len() - i,
    {
        let c = cs[i];
        assert(c == digits[i - start]);
        if c < '0' || '9' < c {
            return None;
        }
        let d: usize = (c as u8 - 48) as usize;
        proof {
            assert(digits.take(i + 1 - start).drop_last() =~= digits.take(i - start));
            lemma_decimal_value_grows(digits, i + 1 - start);
        }
        if d > max || value > max / 10 || 10 * value > max - d {
            return None;
        }
        value = 10 * value + d;
        i = i + 1;
    }
    assert(digits.take(i - start) =~= digits);
    Some(value)
}

/// The decimal notation of a number is made of digits and denotes the number.
pub proof fn lemma_decimal(n: nat)
    ensures
        decimal(n).len() > 0,
        all_digits(decimal(n)),
        decimal_value(decimal(n)) == n,
    decreases n,
{
    reveal_with_fuel(decimal_value, 2);
    if n < 10 {
        assert(decimal(n).drop_last() =~= Seq::<char>::empty());
    } else {
        lemma_decimal(n / 10);
        assert(decimal(n).drop_last() =~= decimal(n / 10));
        assert(decimal(n).last() == digit_char(n % 10));
        assert(n == 10 * (n / 10) + n % 10);
    }
}

} // verus!
