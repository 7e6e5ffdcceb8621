//! Reading command lines: cutting text at spaces, splitting it into words, trimming it, and reading
//! numbers.

use std::collections::VecDeque;
use vstd::prelude::*;

verus! {

/// Whether a character has the Unicode property `White_Space`: the characters that the Unicode
/// Character Database lists under it in `PropList.txt`.
pub open spec fn is_white(c: char) -> bool {
    ||| '\u{9}' <= c <= '\u{d}'
    ||| c == ' '
    ||| c == '\u{85}'
    ||| c == '\u{a0}'
    ||| c == '\u{1680}'
    ||| '\u{2000}' <= c <= '\u{200a}'
    ||| c == '\u{2028}'
    ||| c == '\u{2029}'
    ||| c == '\u{202f}'
    ||| c == '\u{205f}'
    ||| c == '\u{3000}'
}

/// `char::is_whitespace` of the standard library.
///
/// Trusted: it tells the characters with the Unicode property `White_Space` from the others.
pub assume_specification[ char::is_whitespace ](c: char) -> (white: bool)
    ensures
        white == is_white(c),
;

/// How many characters at the beginning of `s` are not `stop`.
pub open spec fn until(s: Seq<char>, stop: char) -> int
    decreases s.len(),
{
    if s.len() == 0 || s[0] == stop {
        0
    } else {
        1 + until(s.skip(1), stop)
    }
}

/// How many characters at the beginning of `s` are not whitespace.
pub open spec fn run(s: Seq<char>) -> int
    decreases s.len(),
{
    if s.len() == 0 || is_white(s[0]) {
        0
    } else {
        1 + run(s.skip(1))
    }
}

/// A run lies inside its text, holds no whitespace, and ends at whitespace or at the text's end.
pub proof fn lemma_run(s: Seq<char>)
    ensures
        0 <= run(s) <= s.len(),
        s.len() > 0 && !is_white(s[0]) ==> run(s) > 0,
        forall|i: int| 0 <= i < run(s) ==> !is_white(#[trigger] s[i]),
        run(s) < s.len() ==> is_white(s[run(s)]),
    decreases s.len(),
{
    if s.len() > 0 && !is_white(s[0]) {
        let rest = s.skip(1);
        lemma_run(rest);
        assert forall|i: int| 0 <= i < run(s) implies !is_white(#[trigger] s[i]) by {
            if i > 0 {
                assert(rest[i - 1] == s[i]);
            }
        }
    }
}

/// The words of `s`: its longest runs of characters that are not whitespace, first to last.
pub open spec fn words(s: Seq<char>) -> Seq<Seq<char>>
    decreases s.len(),
{
    if s.len() == 0 {
        Seq::empty()
    } else if is_white(s[0]) {
        words(s.skip(1))
    } else {
        proof {
            lemma_run(s);
        }
        seq![s.take(run(s))] + words(s.skip(run(s)))
    }
}

/// `s` without the whitespace at its beginning.
pub open spec fn trimmed_start(s: Seq<char>) -> Seq<char>
    decreases s.len(),
{
    if s.len() > 0 && is_white(s[0]) {
        trimmed_start(s.skip(1))
    } else {
        s
    }
}

/// `s` without the whitespace at its end.
pub open spec fn trimmed_end(s: Seq<char>) -> Seq<char>
    decreases s.len(),
{
    if s.len() > 0 && is_white(s.last()) {
        trimmed_end(s.drop_last())
    } else {
        s
    }
}

/// `s` without the whitespace at its two ends.
pub open spec fn trimmed(s: Seq<char>) -> Seq<char> {
    trimmed_end(trimmed_start(s))
}

/// Whether a text holds no whitespace.
pub open spec fn no_white(s: Seq<char>) -> bool {
    forall|i: int| 0 <= i < s.len() ==> !is_white(#[trigger] s[i])
}

/// Whether a text holds nothing but whitespace.
pub open spec fn all_white(s: Seq<char>) -> bool {
    forall|i: int| 0 <= i < s.len() ==> is_white(#[trigger] s[i])
}

/// Some texts in a row, with `gap` between each and the next.
pub open spec fn joined(parts: Seq<Seq<char>>, gap: char) -> Seq<char>
    decreases parts.len(),
{
    if parts.len() == 0 {
        Seq::empty()
    } else if parts.len() == 1 {
        parts[0]
    } else {
        parts[0] + (seq![gap] + joined(parts.skip(1), gap))
    }
}

/// A text without the character `stop`, followed by it, reaches up to it.
pub proof fn lemma_until(head: Seq<char>, stop: char, rest: Seq<char>)
    requires
        !head.contains(stop),
    ensures
        until(head, stop) == head.len(),
        until(head + (seq![stop] + rest), stop) == head.len(),
    decreases head.len(),
{
    let s = head + (seq![stop] + rest);
    if head.len() == 0 {
        assert(s[0] == stop);
    } else {
        assert(head.contains(head[0]));
        assert forall|i: int| 0 <= i < head.skip(1).len() implies head.skip(1)[i] != stop by {
            assert(head.contains(head[i + 1]));
        }
        lemma_until(head.skip(1), stop, rest);
        assert(s[0] == head[0]);
        assert(s.skip(1) =~= head.skip(1) + (seq![stop] + rest));
    }
}

/// The characters with the Unicode property `White_Space`, by their code points.
pub proof fn lemma_white_code_points(c: char)
    ensures
        is_white(c) <==> {
            let n = c as int;
            ||| n == 0x20
            ||| 0x9 <= n < 0xe
            ||| n == 0x85
            ||| n == 0xa0
            ||| n == 0x1680
            ||| 0x2000 <= n < 0x200b
            ||| n == 0x2028
            ||| n == 0x2029
            ||| n == 0x202f
            ||| n == 0x205f
            ||| n == 0x3000
        },
{
}

/// A text reaches up to the first place at which `stop` stands, or to its end.
pub proof fn lemma_first_stop(s: Seq<char>, stop: char)
    ensures
        0 <= until(s, stop) <= s.len(),
        forall|i: int| 0 <= i < until(s, stop) ==> #[trigger] s[i] != stop,
        until(s, stop) < s.len() ==> s[until(s, stop)] == stop,
    decreases s.len(),
{
    if s.len() > 0 && s[0] != stop {
        let rest = s.skip(1);
        lemma_first_stop(rest, stop);
        assert forall|i: int| 0 <= i < until(s, stop) implies #[trigger] s[i] != stop by {
            if i > 0 {
                assert(rest[i - 1] == s[i]);
            }
        }
    }
}

/// A run that is followed by whitespace, or by nothing, ends there.
proof fn lemma_run_ends(word: Seq<char>, rest: Seq<char>)
    requires
        no_white(word),
        rest.len() > 0 ==> is_white(rest[0]),
    ensures
        run(word + rest) == word.len(),
    decreases word.len(),
{
    let s = word + rest;
    if word.len() == 0 {
        assert(s =~= rest);
    } else {
        assert(s[0] == word[0]);
        assert(!is_white(word[0]));
        assert(s.skip(1) =~= word.skip(1) + rest);
        assert forall|i: int| 0 <= i < word.skip(1).len() implies !is_white(
            #[trigger] word.skip(1)[i],
        ) by {
            assert(!is_white(word[i + 1]));
        }
        lemma_run_ends(word.skip(1), rest);
    }
}

/// Every word has a character, and none that is whitespace.
pub proof fn lemma_words_are_words(s: Seq<char>)
    ensures
        forall|i: int|
            0 <= i < words(s).len() ==> (#[trigger] words(s)[i]).len() > 0 && no_white(words(s)[i]),
    decreases s.len(),
{
    if s.len() > 0 {
        if is_white(s[0]) {
            lemma_words_are_words(s.skip(1));
            assert(words(s) == words(s.skip(1)));
        } else {
            lemma_run(s);
            let rest = s.skip(run(s));
            lemma_words_are_words(rest);
            assert forall|i: int| 0 <= i < words(s).len() implies (#[trigger] words(s)[i]).len() > 0
                && no_white(words(s)[i]) by {
                if i > 0 {
                    assert(words(s)[i] == words(rest)[i - 1]);
                } else {
                    assert(words(s)[0] == s.take(run(s)));
                    assert(no_white(s.take(run(s))));
                }
            }
        }
    }
}

/// A text that has a character, and none that is whitespace, is one word; the empty text has none.
pub proof fn lemma_one_word(word: Seq<char>)
    requires
        forall|i: int| 0 <= i < word.len() ==> !is_white(#[trigger] word[i]),
    ensures
        word.len() > 0 ==> words(word) == seq![word],
        word.len() == 0 ==> words(word).len() == 0,
{
    if word.len() > 0 {
        lemma_run_ends(word, Seq::empty());
        assert(word + Seq::<char>::empty() =~= word);
        assert(word.take(word.len() as int) =~= word);
        assert(!is_white(word[0]));
        assert(words(word.skip(word.len() as int)).len() == 0);
        assert(words(word) =~= seq![word]);
    }
}

/// Whitespace parts words: wherever it stands, the words of a text are those before it and then those
/// after it.
pub proof fn lemma_whitespace_parts_words(before: Seq<char>, gap: char, after: Seq<char>)
    requires
        is_white(gap),
    ensures
        words(before + seq![gap] + after) == words(before) + words(after),
    decreases before.len(),
{
    let s = before + seq![gap] + after;
    if before.len() == 0 {
        assert(s[0] == gap);
        assert(s.skip(1) =~= after);
        assert(words(before) + words(after) =~= words(after));
    } else if is_white(before[0]) {
        assert(s[0] == before[0]);
        assert(s.skip(1) =~= before.skip(1) + seq![gap] + after);
        lemma_whitespace_parts_words(before.skip(1), gap, after);
    } else {
        let n = run(before);
        lemma_run(before);
        let word = before.take(n);
        let rest = before.skip(n) + seq![gap] + after;
        assert(s =~= word + rest);
        assert(rest[0] == if n < before.len() {
            before[n]
        } else {
            gap
        });
        assert(no_white(word));
        lemma_run_ends(word, rest);
        assert(s[0] == before[0]);
        assert(s.take(n) =~= word);
        assert(s.skip(n) =~= rest);
        lemma_whitespace_parts_words(before.skip(n), gap, after);
        assert(seq![word] + (words(before.skip(n)) + words(after)) =~= seq![word] + words(
            before.skip(n),
        ) + words(after));
    }
}

/// Words written in a row, with whitespace between them, are read back as those words.
pub proof fn lemma_words_of_joined(parts: Seq<Seq<char>>, gap: char)
    requires
        is_white(gap),
        forall|i: int|
            0 <= i < parts.len() ==> (#[trigger] parts[i]).len() > 0 && no_white(parts[i]),
    ensures
        words(joined(parts, gap)) == parts,
    decreases parts.len(),
{
    let s = joined(parts, gap);
    if parts.len() > 0 {
        let word = parts[0];
        let others = parts.skip(1);
        let rest = if parts.len() == 1 {
            Seq::<char>::empty()
        } else {
            seq![gap] + joined(others, gap)
        };
        assert(s =~= word + rest);
        lemma_run_ends(word, rest);
        assert(s[0] == word[0]);
        assert(!is_white(word[0]));
        assert(s.take(run(s)) =~= word);
        assert(s.skip(run(s)) =~= rest);
        assert forall|i: int| 0 <= i < others.len() implies (#[trigger] others[i]).len() > 0
            && no_white(others[i]) by {
            assert(others[i] == parts[i + 1]);
        }
        lemma_words_of_joined(others, gap);
        if parts.len() > 1 {
            assert(rest.skip(1) =~= joined(others, gap));
            assert(words(rest) == others);
        } else {
            assert(words(rest) =~= others);
        }
        assert(words(s) =~= seq![word] + others);
        assert(seq![word] + others =~= parts);
    } else {
        assert(words(s) =~= parts);
    }
}

/// Trimming takes whitespace off the two ends of a text, all of it and nothing else.
pub proof fn lemma_trimmed(before: Seq<char>, s: Seq<char>, after: Seq<char>)
    requires
        all_white(before),
        all_white(after),
        s.len() > 0 ==> !is_white(s[0]) && !is_white(s.last()),
    ensures
        trimmed(before + s + after) == s,
    decreases before.len() + after.len(),
{
    let t = before + s + after;
    if before.len() > 0 {
        assert(t[0] == before[0]);
        assert(is_white(before[0]));
        assert(t.skip(1) =~= before.skip(1) + s + after);
        assert forall|i: int| 0 <= i < before.skip(1).len() implies is_white(
            #[trigger] before.skip(1)[i],
        ) by {
            assert(is_white(before[i + 1]));
        }
        lemma_trimmed(before.skip(1), s, after);
    } else if s.len() > 0 {
        assert(t[0] == s[0]);
        assert(trimmed_start(t) == t);
        if after.len() > 0 {
            assert(t.last() == after.last());
            assert(is_white(after[after.len() - 1]));
            assert(t.drop_last() =~= before + s + after.drop_last());
            assert forall|i: int| 0 <= i < after.drop_last().len() implies is_white(
                #[trigger] after.drop_last()[i],
            ) by {
                assert(is_white(after[i]));
            }
            lemma_trimmed(before, s, after.drop_last());
            assert((before + s + after.drop_last())[0] == s[0]);
        } else {
            assert(t =~= s);
        }
    } else {
        assert(t =~= after);
        lemma_all_white_is_trimmed(after);
        assert(trimmed(t) =~= s);
    }
}

/// A text is trimmed down to what stands between its first and its last character that is not
/// whitespace; nothing is left where it has none.
pub proof fn lemma_trimmed_between(s: Seq<char>, from: int, to: int)
    requires
        0 <= from <= to <= s.len(),
        forall|i: int| 0 <= i < from ==> is_white(#[trigger] s[i]),
        forall|i: int| to <= i < s.len() ==> is_white(#[trigger] s[i]),
        from < to ==> !is_white(s[from]) && !is_white(s[to - 1]),
    ensures
        trimmed(s) == s.subrange(from, to),
{
    assert(s =~= s.take(from) + s.subrange(from, to) + s.skip(to));
    lemma_trimmed(s.take(from), s.subrange(from, to), s.skip(to));
}

/// Nothing is left of a text of whitespace.
proof fn lemma_all_white_is_trimmed(s: Seq<char>)
    requires
        all_white(s),
    ensures
        trimmed_start(s) == Seq::<char>::empty(),
    decreases s.len(),
{
    if s.len() > 0 {
        assert(is_white(s[0]));
        assert forall|i: int| 0 <= i < s.skip(1).len() implies is_white(
            #[trigger] s.skip(1)[i],
        ) by {
            assert(is_white(s[i + 1]));
        }
        lemma_all_white_is_trimmed(s.skip(1));
    } else {
        assert(s =~= Seq::empty());
    }
}

/// The texts of some string slices.
pub open spec fn texts(slices: Seq<&str>) -> Seq<Seq<char>> {
    Seq::new(slices.len(), |i: int| slices[i]@)
}

/// The texts of some string slices are those of each, in their order.
pub proof fn lemma_texts(slices: Seq<&str>)
    ensures
        texts(slices).len() == slices.len(),
        forall|i: int| 0 <= i < slices.len() ==> #[trigger] texts(slices)[i] == slices[i]@,
{
}

/// The characters of a text.
pub(crate) fn chars_of(s: &str) -> (chars: Vec<char>)
    ensures
        chars@ == s@,
{
    let mut chars: Vec<char> = Vec::new();
    for c in it: s.chars()
        invariant
            it.seq() == s@,
            chars@ == s@.take(it.index()),
    {
        chars.push(c);
    }
    assert(s@.take(s@.len() as int) =~= s@);
    chars
}

/// Whether two texts are the same.
pub(crate) fn same_text(a: &str, b: &str) -> (same: bool)
    ensures
        same == (a@ == b@),
{
    let left = chars_of(a);
    let right = chars_of(b);
    if left.len() != right.len() {
        return false;
    }
    let mut i: usize = 0;
    while i < left.len()
        invariant
            0 <= i <= left@.len(),
            left@.len() == right@.len(),
            forall|k: int| 0 <= k < i ==> left@[k] == right@[k],
            left@ == a@,
            right@ == b@,
        decreases left@.len() - i,
    {
        if left[i] != right[i] {
            return false;
        }
        i = i + 1;
    }
    assert(a@ =~= b@);
    true
}

/// Cuts a text at its first space: what comes before it, and what comes after it where there is
/// one.
pub(crate) fn cut_at_space(s: &str) -> (parts: (&str, Option<&str>))
    ensures
        parts.0@ == s@.take(until(s@, ' ')),
        parts.1 is Some <==> until(s@, ' ') < s@.len(),
        parts.1 matches Some(rest) ==> rest@ == s@.skip(until(s@, ' ') + 1),
{
    let chars = chars_of(s);
    let mut i: usize = 0;
    assert(s@.skip(0) =~= s@);
    while i < chars.len() && chars[i] != ' '
        invariant
            0 <= i <= chars@.len(),
            chars@ == s@,
            until(s@, ' ') == i + until(s@.skip(i as int), ' '),
        decreases chars@.len() - i,
    {
        assert(s@.skip(i as int).skip(1) =~= s@.skip(i + 1));
        i = i + 1;
    }
    let head = s.substring_char(0, i);
    if i < chars.len() {
        (head, Some(s.substring_char(i + 1, chars.len())))
    } else {
        (head, None)
    }
}

/// Splits a text into its words.
pub(crate) fn split_words<'a>(s: &'a str) -> (found: VecDeque<&'a str>)
    ensures
        texts(found@) == words(s@),
{
    let chars = chars_of(s);
    let mut found: VecDeque<&'a str> = VecDeque::new();
    let mut i: usize = 0;
    assert(s@.skip(0) =~= s@);
    assert(texts(found@) + words(s@) =~= words(s@));
    while i < chars.len()
        invariant
            0 <= i <= chars@.len(),
            chars@ == s@,
            texts(found@) + words(s@.skip(i as int)) == words(s@),
        decreases chars@.len() - i,
    {
        let ghost rest = s@.skip(i as int);
        if chars[i].is_whitespace() {
            assert(rest.skip(1) =~= s@.skip(i + 1));
            i = i + 1;
        } else {
            let mut j: usize = i + 1;
            assert(rest.skip(1) =~= s@.skip(i + 1));
            while j < chars.len() && !chars[j].is_whitespace()
                invariant
                    i < j <= chars@.len(),
                    chars@ == s@,
                    rest == s@.skip(i as int),
                    run(rest) == (j - i) + run(s@.skip(j as int)),
                decreases chars@.len() - j,
            {
                assert(s@.skip(j as int).skip(1) =~= s@.skip(j + 1));
                j = j + 1;
            }
            let word = s.substring_char(i, j);
            let ghost before = texts(found@);
            found.push_back(word);
            proof {
                assert(run(rest) == j - i);
                assert(word@ =~= rest.take(j - i));
                assert(rest.skip(j - i) =~= s@.skip(j as int));
                assert(texts(found@) =~= before + seq![word@]);
                assert(before + (seq![word@] + words(s@.skip(j as int))) =~= texts(found@) + words(
                    s@.skip(j as int),
                ));
            }
            i = j;
        }
    }
    assert(texts(found@) + words(s@.skip(i as int)) =~= texts(found@));
    found
}

/// A text without the whitespace at its two ends.
pub(crate) fn trim(s: &str) -> (rest: &str)
    ensures
        rest@ == trimmed(s@),
{
    let chars = chars_of(s);
    let mut i: usize = 0;
    assert(s@.skip(0) =~= s@);
    while i < chars.len() && chars[i].is_whitespace()
        invariant
            0 <= i <= chars@.len(),
            chars@ == s@,
            trimmed_start(s@) == trimmed_start(s@.skip(i as int)),
        decreases chars@.len() - i,
    {
        assert(s@.skip(i as int).skip(1) =~= s@.skip(i + 1));
        i = i + 1;
    }
    let mut j: usize = chars.len();
    assert(s@.subrange(i as int, j as int) =~= s@.skip(i as int));
    while j > i && chars[j - 1].is_whitespace()
        invariant
            0 <= i <= j <= chars@.len(),
            chars@ == s@,
            trimmed(s@) == trimmed_end(s@.subrange(i as int, j as int)),
        decreases j,
    {
        assert(s@.subrange(i as int, j as int).drop_last() =~= s@.subrange(i as int, j - 1));
        j = j - 1;
    }
    s.substring_char(i, j)
}

/// Whether a character is one of the ten decimal digits.
pub open spec fn is_digit(c: char) -> bool {
    '0' <= c <= '9'
}

/// The number that a sequence of decimal digits writes.
pub open spec fn decimal(s: Seq<char>) -> int
    decreases s.len(),
{
    if s.len() == 0 {
        0
    } else {
        10 * decimal(s.drop_last()) + (s.last() as int - '0' as int)
    }
}

/// Whether a text is made of decimal digits alone.
pub open spec fn all_digits(s: Seq<char>) -> bool {
    forall|i: int| 0 <= i < s.len() ==> is_digit(#[trigger] s[i])
}

/// A text without the plus sign at its beginning, where it has one.
pub open spec fn unsigned(s: Seq<char>) -> Seq<char> {
    if s.len() > 0 && s[0] == '+' {
        s.skip(1)
    } else {
        s
    }
}

/// The number that a text writes: decimal digits, at least one, with or without a plus sign before
/// them, for a number that a `usize` can hold.
pub open spec fn number(s: Seq<char>) -> Option<usize> {
    let digits = unsigned(s);
    if digits.len() > 0 && all_digits(digits) && decimal(digits) <= usize::MAX {
        Some(decimal(digits) as usize)
    } else {
        None
    }
}

/// More digits never write a smaller number.
proof fn lemma_decimal_grows(s: Seq<char>, n: int)
    requires
        0 <= n <= s.len(),
        all_digits(s),
    ensures
        0 <= decimal(s.take(n)) <= decimal(s),
    decreases s.len(), n,
{
    if n == s.len() {
        assert(s.take(n) =~= s);
        if n > 0 {
            lemma_decimal_grows(s.drop_last(), n - 1);
            assert(s.drop_last().take(n - 1) =~= s.drop_last());
            assert(is_digit(s[n - 1]));
        }
    } else {
        lemma_decimal_grows(s.drop_last(), n);
        assert(s.drop_last().take(n) =~= s.take(n));
        assert(is_digit(s[s.len() - 1]));
    }
}

/// The decimal digits of a number.
pub open spec fn digits_of(n: nat) -> Seq<char>
    decreases n,
{
    if n < 10 {
        seq![(n + '0' as int) as char]
    } else {
        digits_of(n / 10).push((n % 10 + '0' as int) as char)
    }
}

/// The digits of a number write it.
proof fn lemma_digits(n: nat)
    ensures
        digits_of(n).len() > 0,
        all_digits(digits_of(n)),
        decimal(digits_of(n)) == n,
    decreases n,
{
    if n < 10 {
        let one = digits_of(n);
        assert(one.drop_last() =~= Seq::empty());
        assert(decimal(one.drop_last()) == 0);
    } else {
        lemma_digits(n / 10);
        let all = digits_of(n);
        assert(all.drop_last() =~= digits_of(n / 10));
        assert forall|i: int| 0 <= i < all.len() implies is_digit(#[trigger] all[i]) by {
            if i < all.len() - 1 {
                assert(all[i] == digits_of(n / 10)[i]);
            }
        }
    }
}

/// A number written in decimal digits, with or without a plus sign, is read back as that number.
pub proof fn lemma_number_of_digits(n: usize)
    ensures
        number(digits_of(n as nat)) == Some(n),
        number(seq!['+'] + digits_of(n as nat)) == Some(n),
{
    let digits = digits_of(n as nat);
    lemma_digits(n as nat);
    assert(is_digit(digits[0]));
    assert((seq!['+'] + digits).skip(1) =~= digits);
}

/// No character writes no number, nor does a plus sign alone; one character writes a number where it
/// is a digit, with or without a plus sign before it.
pub proof fn lemma_number_of_one_digit(c: char)
    ensures
        number(Seq::empty()) is None,
        number(seq!['+']) is None,
        '0' <= c <= '9' ==> {
            &&& number(seq![c]) == Some((c as int - '0' as int) as usize)
            &&& number(seq!['+', c]) == Some((c as int - '0' as int) as usize)
        },
        !('0' <= c <= '9') ==> number(seq![c]) is None && number(seq!['+', c]) is None,
{
    let one = seq![c];
    assert(seq!['+'].skip(1).len() == 0);
    assert(seq!['+', c].skip(1) =~= one);
    assert(decimal(one.drop_last()) == 0);
    assert(decimal(one) == c as int - '0' as int);
    assert(one[0] == c);
    assert(unsigned(seq!['+', c]) == one);
}

/// One more character makes the number ten times as large, and larger by the digit; where it is no
/// digit, where a `usize` cannot hold that, and where there was no number before, there is none.
pub proof fn lemma_number_of_one_more_digit(s: Seq<char>, c: char)
    requires
        s.len() > 0,
        s != seq!['+'],
    ensures
        number(s) is None ==> number(s.push(c)) is None,
        !('0' <= c <= '9') ==> number(s.push(c)) is None,
        number(s) matches Some(v) ==> '0' <= c <= '9' ==> {
            let value = 10 * v + (c as int - '0' as int);
            if value <= usize::MAX {
                number(s.push(c)) == Some(value as usize)
            } else {
                number(s.push(c)) is None
            }
        },
{
    let digits = unsigned(s);
    let more = s.push(c);
    assert(more[0] == s[0]);
    if s[0] == '+' {
        assert(s.len() > 1) by {
            if s.len() == 1 {
                assert(s =~= seq!['+']);
            }
        }
        assert(more.skip(1) =~= digits.push(c));
    }
    assert(unsigned(more) == digits.push(c));
    assert(digits.push(c).drop_last() =~= digits);
    assert(decimal(digits.push(c)) == 10 * decimal(digits) + (c as int - '0' as int));
    assert(all_digits(digits.push(c)) ==> all_digits(digits) && is_digit(c)) by {
        if all_digits(digits.push(c)) {
            assert(is_digit(digits.push(c)[digits.len() as int]));
            assert forall|i: int| 0 <= i < digits.len() implies is_digit(#[trigger] digits[i]) by {
                assert(is_digit(digits.push(c)[i]));
            }
        }
    }
    if all_digits(digits) {
        lemma_decimal_grows(digits, digits.len() as int);
        assert(digits.take(digits.len() as int) =~= digits);
    }
}

/// Reads a number.
pub(crate) fn parse_usize(s: &str) -> (value: Option<usize>)
    ensures
        value == number(s@),
{
    let chars = chars_of(s);
    let start: usize = if chars.len() > 0 && chars[0] == '+' {
        1
    } else {
        0
    };
    let ghost digits = unsigned(s@);
    if chars.len() == start {
        return None;
    }
    let mut acc: usize = 0;
    let mut i: usize = start;
    while i < chars.len()
        invariant
            start <= i <= chars@.len(),
            start < chars@.len(),
            chars@ == s@,
            start == 0 || start == 1,
            digits == unsigned(s@),
            digits == if start == 1 { s@.skip(1) } else { s@ },
            forall|k: int| 0 <= k < i - start ==> is_digit(#[trigger] digits[k]),
            acc == decimal(digits.take(i - start)),
        decreases chars@.len() - i,
    {
        let c: char = chars[i];
        let ghost next = digits.take(i - start + 1);
        proof {
            assert(digits[i - start] == c);
            assert(next.drop_last() =~= digits.take(i - start));
        }
        if c < '0' || c > '9' {
            return None;
        }
        let digit: usize = (c as u32 - '0' as u32) as usize;
        assert(decimal(next) == 10 * acc + digit);
        proof {
            if all_digits(digits) {
                lemma_decimal_grows(digits, i - start + 1);
            }
        }
        match acc.checked_mul(10) {
            Some(tens) => match tens.checked_add(digit) {
                Some(sum) => {
                    acc = sum;
                },
                None => {
                    return None;
                },
            },
            None => {
                return None;
            },
        }
        i = i + 1;
    }
    assert(digits.take(i - start) =~= digits);
    Some(acc)
}

} // verus!
