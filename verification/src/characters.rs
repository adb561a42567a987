//! What becomes of a text, character by character.
use vstd::prelude::*;

use crate::round_trip::{is_word, lemma_words_cons};
use crate::text::{
    all_digits, ascii_lower, ascii_lowercase, decimal, decimal_value, is_digit, is_line_end,
    is_white_space, lemma_decimal, number_in, run_before, same_ignoring_case, split_at_first,
    trim_end_where, trim_start_where, trimmed, unsigned_part, without_line_end, word_len, words,
};

verus! {

/// White space is made of these code points, and of no others.
pub proof fn law_white_space(c: char)
    ensures
        is_white_space(c) == set![
            0x9u32, 0xau32, 0xbu32, 0xcu32, 0xdu32, 0x20u32, 0x85u32, 0xa0u32, 0x1680u32,
            0x2000u32, 0x2001u32, 0x2002u32, 0x2003u32, 0x2004u32, 0x2005u32, 0x2006u32, 0x2007u32,
            0x2008u32, 0x2009u32, 0x200au32, 0x2028u32, 0x2029u32, 0x202fu32, 0x205fu32, 0x3000u32,
        ].contains(c as u32),
{
}

/// Two texts are the same but for case where they are equally long and at each
/// position have the same character, or an ASCII capital and its small letter.
pub proof fn law_same_ignoring_case(a: Seq<char>, b: Seq<char>)
    ensures
        same_ignoring_case(a, b) <==> a.len() == b.len() && forall|i: int|
            0 <= i < a.len() ==> {
                ||| #[trigger] a[i] == b[i]
                ||| 'A' <= a[i] <= 'Z' && b[i] as u32 == a[i] as u32 + 32
                ||| 'A' <= b[i] <= 'Z' && a[i] as u32 == b[i] as u32 + 32
            },
{
    let la = ascii_lowercase(a);
    let lb = ascii_lowercase(b);
    assert(forall|i: int|
        0 <= i < a.len() ==> la[i] == ascii_lower(#[trigger] a[i]));
    assert(forall|i: int|
        0 <= i < b.len() ==> lb[i] == ascii_lower(#[trigger] b[i]));
    if same_ignoring_case(a, b) {
        assert(la.len() == lb.len());
        assert forall|i: int| 0 <= i < a.len() implies {
            ||| #[trigger] a[i] == b[i]
            ||| 'A' <= a[i] <= 'Z' && b[i] as u32 == a[i] as u32 + 32
            ||| 'A' <= b[i] <= 'Z' && a[i] as u32 == b[i] as u32 + 32
        } by {
            assert(la[i] == lb[i]);
            assert(lb[i] == ascii_lower(b[i]));
        }
    } else if a.len() == b.len() {
        if forall|i: int|
            0 <= i < a.len() ==> {
                ||| #[trigger] a[i] == b[i]
                ||| 'A' <= a[i] <= 'Z' && b[i] as u32 == a[i] as u32 + 32
                ||| 'A' <= b[i] <= 'Z' && a[i] as u32 == b[i] as u32 + 32
            } {
            assert forall|i: int| 0 <= i < la.len() implies la[i] == lb[i] by {
                assert(la[i] == ascii_lower(a[i]));
                assert(lb[i] == ascii_lower(b[i]));
            }
            assert(la =~= lb);
        }
    }
}

pub proof fn lemma_trim_end_drops(s: Seq<char>, end: Seq<char>, p: spec_fn(char) -> bool)
    requires
        forall|i: int| 0 <= i < end.len() ==> p(#[trigger] end[i]),
    ensures
        trim_end_where(s + end, p) == trim_end_where(s, p),
    decreases end.len(),
{
    if end.len() == 0 {
        assert(s + end =~= s);
    } else {
        assert(p(end[end.len() - 1]));
        assert((s + end).last() == end.last());
        assert((s + end).drop_last() =~= s + end.drop_last());
        lemma_trim_end_drops(s, end.drop_last(), p);
    }
}

proof fn lemma_trim_start_drops(start: Seq<char>, s: Seq<char>, p: spec_fn(char) -> bool)
    requires
        forall|i: int| 0 <= i < start.len() ==> p(#[trigger] start[i]),
    ensures
        trim_start_where(start + s, p) == trim_start_where(s, p),
    decreases start.len(),
{
    if start.len() == 0 {
        assert(start + s =~= s);
    } else {
        assert(p(start[0]));
        assert((start + s).first() == start.first());
        assert((start + s).drop_first() =~= start.drop_first() + s);
        lemma_trim_start_drops(start.drop_first(), s, p);
    }
}

/// Trimming takes the white space around a text away, and nothing else.
pub proof fn law_trimmed(before: Seq<char>, kept: Seq<char>, after: Seq<char>)
    requires
        forall|i: int| 0 <= i < before.len() ==> is_white_space(#[trigger] before[i]),
        forall|i: int| 0 <= i < after.len() ==> is_white_space(#[trigger] after[i]),
        kept.len() > 0 ==> !is_white_space(kept.first()) && !is_white_space(kept.last()),
    ensures
        trimmed(before + kept + after) == kept,
{
    let p = |c: char| is_white_space(c);
    lemma_trim_end_drops(before + kept, after, p);
    if kept.len() > 0 {
        assert((before + kept).last() == kept.last());
        assert(trim_end_where(before + kept, p) == before + kept);
        lemma_trim_start_drops(before, kept, p);
    } else {
        assert(before + kept =~= Seq::<char>::empty() + before);
        lemma_trim_end_drops(Seq::empty(), before, p);
        assert(kept =~= Seq::<char>::empty());
    }
}

/// The end of a line is made of the carriage returns and newlines at its end,
/// and of nothing else.
pub proof fn law_line_end(text: Seq<char>, end: Seq<char>)
    requires
        text.len() > 0 ==> text.last() != '\r' && text.last() != '\n',
        forall|i: int| 0 <= i < end.len() ==> #[trigger] end[i] == '\r' || end[i] == '\n',
    ensures
        without_line_end(text + end) == text,
{
    lemma_trim_end_drops(text, end, |c: char| is_line_end(c));
}

proof fn lemma_run_before_unmarked(s: Seq<char>, mark: char)
    requires
        forall|i: int| 0 <= i < s.len() ==> #[trigger] s[i] != mark,
    ensures
        run_before(s, mark) == s.len(),
    decreases s.len(),
{
    if s.len() > 0 {
        assert(s[0] != mark);
        assert forall|i: int| 0 <= i < s.drop_first().len() implies #[trigger] s.drop_first()[i]
            != mark by {
            assert(s[i + 1] != mark);
        }
        lemma_run_before_unmarked(s.drop_first(), mark);
    }
}

proof fn lemma_run_before_marked(before: Seq<char>, mark: char, after: Seq<char>)
    requires
        forall|i: int| 0 <= i < before.len() ==> #[trigger] before[i] != mark,
    ensures
        run_before(before.push(mark) + after, mark) == before.len(),
    decreases before.len(),
{
    let s = before.push(mark) + after;
    if before.len() > 0 {
        assert(before[0] != mark);
        assert(s.first() == before[0]);
        assert(s.drop_first() =~= before.drop_first().push(mark) + after);
        assert forall|i: int| 0 <= i < before.drop_first().len() implies
            #[trigger] before.drop_first()[i] != mark by {
            assert(before[i + 1] != mark);
        }
        lemma_run_before_marked(before.drop_first(), mark, after);
    } else {
        assert(s.first() == mark);
    }
}

/// A text is split at its first mark: into all that stands before it and all
/// that stands after it.
pub proof fn law_split_at_first(before: Seq<char>, mark: char, after: Seq<char>)
    requires
        !before.contains(mark),
    ensures
        split_at_first(before.push(mark) + after, mark) == Some((before, after)),
{
    let s = before.push(mark) + after;
    assert forall|i: int| 0 <= i < before.len() implies #[trigger] before[i] != mark by {
        assert(before.contains(before[i]));
    }
    lemma_run_before_marked(before, mark, after);
    assert(s.take(before.len() as int) =~= before);
    assert(s.skip(before.len() as int + 1) =~= after);
}

/// A text without the mark is not split.
pub proof fn law_not_split(s: Seq<char>, mark: char)
    requires
        !s.contains(mark),
    ensures
        split_at_first(s, mark) is None,
{
    assert forall|i: int| 0 <= i < s.len() implies #[trigger] s[i] != mark by {
        assert(s.contains(s[i]));
    }
    lemma_run_before_unmarked(s, mark);
}

/// White space alone holds no word.
pub proof fn law_blank_has_no_words(blank: Seq<char>)
    requires
        forall|i: int| 0 <= i < blank.len() ==> is_white_space(#[trigger] blank[i]),
    ensures
        words(blank) == Seq::<Seq<char>>::empty(),
    decreases blank.len(),
{
    if blank.len() > 0 {
        assert(is_white_space(blank[0]));
        assert forall|i: int| 0 <= i < blank.drop_first().len() implies is_white_space(
            #[trigger] blank.drop_first()[i],
        ) by {
            assert(is_white_space(blank[i + 1]));
        }
        law_blank_has_no_words(blank.drop_first());
    }
}

/// The first word of a text is all that stands between the white space before
/// it and the white space, or the end, after it. The other words follow.
pub proof fn law_first_word(blank: Seq<char>, word: Seq<char>, rest: Seq<char>)
    requires
        forall|i: int| 0 <= i < blank.len() ==> is_white_space(#[trigger] blank[i]),
        word.len() > 0,
        forall|i: int| 0 <= i < word.len() ==> !is_white_space(#[trigger] word[i]),
        rest.len() > 0 ==> is_white_space(rest.first()),
    ensures
        words(blank + word + rest) == seq![word] + words(rest),
    decreases blank.len(),
{
    let s = blank + word + rest;
    if blank.len() > 0 {
        assert(is_white_space(blank[0]));
        assert(s.first() == blank[0]);
        assert(s.drop_first() =~= blank.drop_first() + word + rest);
        assert forall|i: int| 0 <= i < blank.drop_first().len() implies is_white_space(
            #[trigger] blank.drop_first()[i],
        ) by {
            assert(is_white_space(blank[i + 1]));
        }
        law_first_word(blank.drop_first(), word, rest);
    } else if rest.len() > 0 {
        assert(s =~= word.push(rest.first()) + rest.drop_first());
        lemma_words_cons(word, rest.first(), rest.drop_first());
        assert(words(rest) == words(rest.drop_first()));
    } else {
        assert(s =~= word);
        lemma_only_word(word);
    }
}

proof fn lemma_only_word(word: Seq<char>)
    requires
        is_word(word),
    ensures
        words(word) == seq![word] + words(Seq::empty()),
{
    assert(!is_white_space(word[0]));
    lemma_word_len_whole(word);
    assert(word.take(word.len() as int) =~= word);
    assert(word.skip(word.len() as int) =~= Seq::empty());
}

proof fn lemma_word_len_whole(s: Seq<char>)
    requires
        forall|i: int| 0 <= i < s.len() ==> !is_white_space(#[trigger] s[i]),
    ensures
        word_len(s) == s.len(),
    decreases s.len(),
{
    if s.len() > 0 {
        assert(!is_white_space(s[0]));
        assert forall|i: int| 0 <= i < s.drop_first().len() implies !is_white_space(
            #[trigger] s.drop_first()[i],
        ) by {
            assert(!is_white_space(s[i + 1]));
        }
        lemma_word_len_whole(s.drop_first());
    }
}

/// A number is written digit by digit, the last of them in the place of ones,
/// and without a zero in front.
pub proof fn law_decimal(n: nat, d: nat)
    requires
        d < 10,
    ensures
        decimal(d).len() == 1,
        decimal(d)[0] as u32 == '0' as u32 + d,
        n > 0 ==> decimal(10 * n + d) == decimal(n) + decimal(d),
{
    if n > 0 {
        assert((10 * n + d) / 10 == n);
        assert((10 * n + d) % 10 == d);
        assert(decimal(10 * n + d) =~= decimal(n) + decimal(d));
    }
}

proof fn lemma_leading_zeros(zeros: Seq<char>, s: Seq<char>)
    requires
        forall|i: int| 0 <= i < zeros.len() ==> #[trigger] zeros[i] == '0',
    ensures
        decimal_value(zeros + s) == decimal_value(s),
    decreases zeros.len() + s.len(),
{
    if s.len() > 0 {
        assert((zeros + s).drop_last() =~= zeros + s.drop_last());
        lemma_leading_zeros(zeros, s.drop_last());
    } else if zeros.len() > 0 {
        assert(zeros[zeros.len() - 1] == '0');
        assert((zeros + s).drop_last() =~= zeros.drop_last() + s);
        assert((zeros + s).last() == '0');
        lemma_leading_zeros(zeros.drop_last(), s);
        assert(s.len() == 0);
    } else {
        assert(zeros + s =~= s);
    }
}

/// The decimal notation of a number denotes it, up to the largest that is
/// asked for, whether or not zeros or a plus sign precede it.
pub proof fn law_number(sign: Seq<char>, zeros: Seq<char>, n: nat, max: nat)
    requires
        sign.len() == 0 || sign == seq!['+'],
        forall|i: int| 0 <= i < zeros.len() ==> #[trigger] zeros[i] == '0',
    ensures
        number_in(sign + zeros + decimal(n), max) == if n <= max {
            Some(n)
        } else {
            None
        },
{
    let s = sign + zeros + decimal(n);
    let digits = zeros + decimal(n);
    lemma_decimal(n);
    lemma_leading_zeros(zeros, decimal(n));
    assert(all_digits(digits)) by {
        assert forall|i: int| 0 <= i < digits.len() implies is_digit(#[trigger] digits[i]) by {
            if i < zeros.len() {
                assert(digits[i] == zeros[i]);
            } else {
                assert(digits[i] == decimal(n)[i - zeros.len()]);
            }
        }
    }
    assert(is_digit(digits[0]));
    if sign.len() == 0 {
        assert(s =~= digits);
    } else {
        assert(s.first() == '+');
        assert(s.drop_first() =~= digits);
    }
    assert(unsigned_part(s) == digits);
}

/// A text without digits, or with anything but digits after a leading plus
/// sign, denotes no number.
pub proof fn law_no_number(s: Seq<char>, max: nat)
    requires
        s.len() == 0 || s == seq!['+'] || exists|i: int|
            0 <= i < s.len() && !('0' <= #[trigger] s[i] <= '9') && !(i == 0 && s[i] == '+'),
    ensures
        number_in(s, max) is None,
{
    if s.len() > 0 && s != seq!['+'] {
        let i = choose|i: int|
            0 <= i < s.len() && !('0' <= #[trigger] s[i] <= '9') && !(i == 0 && s[i] == '+');
        if s.first() == '+' {
            assert(!is_digit(unsigned_part(s)[i - 1]));
        } else {
            assert(!is_digit(unsigned_part(s)[i]));
        }
    }
}

} // verus!
