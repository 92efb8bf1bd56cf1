//! Small operations on strings, each stated over sequences of characters.
use vstd::prelude::*;

verus! {

/// Calls `str`'s `==`, which compares the bytes of two strings: they are equal
/// exactly when the strings hold the same characters.
#[verifier::external_body]
pub(crate) fn str_eq(a: &str, b: &str) -> (r: bool)
    ensures
        r == (a@ == b@),
{
    a == b
}

/// `String::push` puts a character at the end of a string.
pub assume_specification[ String::push ](s: &mut String, c: char)
    ensures
        final(s)@ == old(s)@.push(c),
;

/// The characters of a string.
pub fn chars_of(s: &str) -> (r: Vec<char>)
    ensures
        r@ == s@,
{
    let mut out: Vec<char> = Vec::new();
    for c in it: s.chars()
        invariant
            it.seq() == s@,
            out@ == s@.take(it.index()),
    {
        out.push(c);
        assert(out@ =~= s@.take(it.index() + 1));
    }
    assert(s@.take(s@.len() as int) =~= s@);
    out
}

// --- Decimal numbers ---

/// Whether a character is one of the ten ASCII digits.
pub open spec fn is_digit(c: char) -> bool {
    '0' <= c <= '9'
}

/// What a digit stands for.
pub open spec fn digit_value(c: char) -> nat {
    if is_digit(c) {
        (c as int - '0' as int) as nat
    } else {
        0
    }
}

/// The digit of a number below ten.
pub open spec fn digit_char(d: nat) -> char {
    ('0' as int + d) as char
}

/// The digits of a number, most significant first and without leading zeros.
pub open spec fn decimal(n: nat) -> Seq<char>
    decreases n,
{
    if n < 10 {
        seq![digit_char(n)]
    } else {
        decimal(n / 10).push(digit_char(n % 10))
    }
}

/// The number that some digits stand for.
pub open spec fn decimal_value(s: Seq<char>) -> nat
    decreases s.len(),
{
    if s.len() == 0 {
        0
    } else {
        decimal_value(s.drop_last()) * 10 + digit_value(s.last())
    }
}

/// Whether all characters are digits.
pub open spec fn all_digits(s: Seq<char>) -> bool {
    forall|i: int| 0 <= i < s.len() ==> is_digit(#[trigger] s[i])
}

/// The digits of a text behind an optional plus sign.
pub open spec fn unsigned_digits(s: Seq<char>) -> Seq<char> {
    if s.len() > 0 && s[0] == '+' {
        s.drop_first()
    } else {
        s
    }
}

/// The number below 2^64 that a text stands for: digits behind an optional plus
/// sign, and nothing else.
pub open spec fn number_of(s: Seq<char>) -> Option<u64> {
    let digits = unsigned_digits(s);
    if digits.len() > 0 && all_digits(digits) && decimal_value(digits) <= u64::MAX {
        Some(decimal_value(digits) as u64)
    } else {
        None
    }
}

/// More digits do not make a number smaller.
proof fn lemma_decimal_value_grows(s: Seq<char>, i: int)
    requires
        0 <= i <= s.len(),
    ensures
        decimal_value(s.take(i)) <= decimal_value(s),
    decreases s.len() - i,
{
    if i < s.len() {
        lemma_decimal_value_grows(s, i + 1);
        assert(s.take(i + 1).drop_last() =~= s.take(i));
    } else {
        assert(s.take(i) =~= s);
    }
}

/// Reads a number below 2^64: digits behind an optional plus sign.
pub fn parse_number(text: &str) -> (r: Option<u64>)
    ensures
        r == number_of(text@),
{
    let chars = chars_of(text);
    let start: usize = if chars.len() > 0 && chars[0] == '+' {
        1
    } else {
        0
    };
    let ghost digits = unsigned_digits(text@);
    assert(digits =~= chars@.skip(start as int));
    if chars.len() == start {
        return None;
    }
    let mut value: u64 = 0;
    let mut i: usize = start;
    while i < chars.len()
        invariant
            start <= i <= chars@.len(),
            digits == chars@.skip(start as int),
            digits == unsigned_digits(text@),
            forall|j: int| 0 <= j < i - start ==> is_digit(#[trigger] digits[j]),
            value == decimal_value(digits.take(i - start)),
        decreases chars.len() - i,
    {
        let c = chars[i];
        assert(digits[i - start] == c);
        if c < '0' || c > '9' {
            return None;
        }
        let d: u64 = (c as u32 - '0' as u32) as u64;
        assert(digits.take(i - start + 1).drop_last() =~= digits.take(i - start));
        proof {
            lemma_decimal_value_grows(digits, i - start + 1);
        }
        match value.checked_mul(10) {
            Some(tens) => match tens.checked_add(d) {
                Some(sum) => {
                    value = sum;
                },
                None => {
                    return None;
                },
            },
            None => {
                return None;
            },
        }
        i += 1;
    }
    assert(digits.take(digits.len() as int) =~= digits);
    Some(value)
}

/// Writes a number in decimal.
pub fn decimal_text(n: u64) -> (r: String)
    ensures
        r@ == decimal(n as nat),
    decreases n,
{
    let mut out: String = if n < 10 {
        String::new()
    } else {
        decimal_text(n / 10)
    };
    let d: u8 = (n % 10) as u8;
    let c: char = ('0' as u8 + d) as char;
    out.push(c);
    assert(out@ =~= decimal(n as nat));
    out
}

/// The digits of a number stand for that number.
proof fn lemma_decimal(n: nat)
    ensures
        decimal(n).len() > 0,
        all_digits(decimal(n)),
        decimal_value(decimal(n)) == n,
    decreases n,
{
    if n < 10 {
        let s = decimal(n);
        assert(s.drop_last() =~= Seq::<char>::empty());
        assert(decimal_value(s.drop_last()) == 0);
    } else {
        lemma_decimal(n / 10);
        let s = decimal(n);
        assert(s.drop_last() =~= decimal(n / 10));
        assert forall|i: int| 0 <= i < s.len() implies is_digit(#[trigger] s[i]) by {
            if i < s.len() - 1 {
                assert(s[i] == decimal(n / 10)[i]);
            }
        }
    }
}

/// Reading the digits of a number gives the number back.
pub proof fn law_decimal_reads_back(n: u64)
    ensures
        number_of(decimal(n as nat)) == Some(n),
{
    lemma_decimal(n as nat);
    let s = decimal(n as nat);
    assert(is_digit(s[0]));
    assert(unsigned_digits(s) == s);
}

/// Two numbers with the same digits are the same number.
pub proof fn law_decimal_injective(a: u64, b: u64)
    requires
        decimal(a as nat) == decimal(b as nat),
    ensures
        a == b,
{
    law_decimal_reads_back(a);
    law_decimal_reads_back(b);
}

// --- Words, separators and replacements ---

/// Whether a character is Unicode white space.
pub open spec fn is_space(c: char) -> bool {
    ||| '\u{9}' <= c <= '\u{d}'
    ||| c == ' '
    ||| c == '\u{85}'
    ||| c == '\u{a0}'
    ||| c == '\u{1680}'
    ||| '\u{2000}' <= c <= '\u{200a}'
    ||| c == '\u{2028}'
    ||| c == '\u{2029}'
    ||| c == '\u{202f}'
    ||| c == '\u{205f}'
    ||| c == '\u{3000}'
}

/// A text without the white space at its end.
pub open spec fn without_trailing_space(s: Seq<char>) -> Seq<char>
    decreases s.len(),
{
    if s.len() > 0 && is_space(s.last()) {
        without_trailing_space(s.drop_last())
    } else {
        s
    }
}

/// The characters at the end of a text that are not white space.
pub open spec fn ending_word(s: Seq<char>) -> Seq<char>
    decreases s.len(),
{
    if s.len() == 0 || is_space(s.last()) {
        Seq::empty()
    } else {
        ending_word(s.drop_last()).push(s.last())
    }
}

/// The last word of a text, empty where it has none.
pub open spec fn last_word(s: Seq<char>) -> Seq<char> {
    ending_word(without_trailing_space(s))
}

/// A text without the characters `c` at its end.
pub open spec fn without_trailing(s: Seq<char>, c: char) -> Seq<char>
    decreases s.len(),
{
    if s.len() > 0 && s.last() == c {
        without_trailing(s.drop_last(), c)
    } else {
        s
    }
}

/// What stands before and after the first `c` of a text.
pub open spec fn split_at_first(s: Seq<char>, c: char) -> Option<(Seq<char>, Seq<char>)> {
    match s.index_of_first(c) {
        Some(i) => Some((s.take(i), s.skip(i + 1))),
        None => None,
    }
}

/// A text with each occurrence of `from` replaced by `to`, searching on behind
/// each replacement.
pub open spec fn replaced_all(s: Seq<char>, from: Seq<char>, to: Seq<char>) -> Seq<char>
    decreases s.len(),
{
    if from.len() == 0 || s.len() < from.len() {
        s
    } else if from.is_prefix_of(s) {
        to + replaced_all(s.skip(from.len() as int), from, to)
    } else {
        seq![s[0]] + replaced_all(s.skip(1), from, to)
    }
}

/// Whether a character is Unicode white space.
pub fn space(c: char) -> (r: bool)
    ensures
        r == is_space(c),
{
    ('\u{9}' <= c && c <= '\u{d}') || c == ' ' || c == '\u{85}' || c == '\u{a0}' || c
        == '\u{1680}' || ('\u{2000}' <= c && c <= '\u{200a}') || c == '\u{2028}' || c
        == '\u{2029}' || c == '\u{202f}' || c == '\u{205f}' || c == '\u{3000}'
}

/// The last word of a text, empty where it has none.
pub fn find_last_word(text: &str) -> (r: &str)
    ensures
        r@ == last_word(text@),
{
    let chars = chars_of(text);
    let mut end: usize = chars.len();
    assert(text@.take(end as int) =~= text@);
    while end > 0 && space(chars[end - 1])
        invariant
            end <= chars@.len(),
            chars@ == text@,
            without_trailing_space(text@) == without_trailing_space(text@.take(end as int)),
        decreases end,
    {
        assert(text@.take(end as int).drop_last() =~= text@.take(end - 1));
        end -= 1;
    }
    assert(without_trailing_space(text@) == text@.take(end as int));
    let mut start: usize = end;
    assert(text@.subrange(end as int, end as int) =~= Seq::<char>::empty());
    assert(ending_word(text@.take(end as int)) =~= ending_word(text@.take(end as int))
        + text@.subrange(end as int, end as int));
    while start > 0 && !space(chars[start - 1])
        invariant
            start <= end <= chars@.len(),
            chars@ == text@,
            ending_word(text@.take(end as int)) == ending_word(text@.take(start as int))
                + text@.subrange(start as int, end as int),
        decreases start,
    {
        assert(text@.take(start as int).drop_last() =~= text@.take(start - 1));
        assert(ending_word(text@.take(start as int)) + text@.subrange(start as int, end as int)
            =~= ending_word(text@.take(start - 1)) + text@.subrange(start - 1, end as int));
        start -= 1;
    }
    assert(ending_word(text@.take(start as int)) =~= Seq::<char>::empty());
    let word = text.substring_char(start, end);
    assert(word@ =~= last_word(text@));
    word
}

/// A text without the characters `c` at its end.
pub fn trim_trailing(text: &str, c: char) -> (r: &str)
    ensures
        r@ == without_trailing(text@, c),
{
    let chars = chars_of(text);
    let mut end: usize = chars.len();
    assert(text@.take(end as int) =~= text@);
    while end > 0 && chars[end - 1] == c
        invariant
            end <= chars@.len(),
            chars@ == text@,
            without_trailing(text@, c) == without_trailing(text@.take(end as int), c),
        decreases end,
    {
        assert(text@.take(end as int).drop_last() =~= text@.take(end - 1));
        end -= 1;
    }
    text.substring_char(0, end)
}

/// What stands before and after the first `c` of a text.
pub fn split_first(text: &str, c: char) -> (r: Option<(&str, &str)>)
    ensures
        match r {
            Some((before, after)) => split_at_first(text@, c) == Some((before@, after@)),
            None => split_at_first(text@, c) is None,
        },
{
    let chars = chars_of(text);
    proof {
        text@.index_of_first_ensures(c);
    }
    let mut i: usize = 0;
    while i < chars.len()
        invariant
            i <= chars@.len(),
            chars@ == text@,
            forall|j: int| 0 <= j < i ==> #[trigger] text@[j] != c,
            match text@.index_of_first(c) {
                Some(k) => 0 <= k < text@.len() && text@[k] == c && forall|j: int|
                    0 <= j < k ==> #[trigger] text@[j] != c,
                None => forall|j: int| 0 <= j < text@.len() ==> #[trigger] text@[j] != c,
            },
        decreases chars.len() - i,
    {
        if chars[i] == c {
            assert(text@.index_of_first(c) == Some(i as int));
            return Some((text.substring_char(0, i), text.substring_char(i + 1, chars.len())));
        }
        i += 1;
    }
    None
}

/// Whether `from` stands at position `at`.
fn stands_at(chars: &Vec<char>, from: &Vec<char>, at: usize) -> (r: bool)
    requires
        at <= chars@.len(),
    ensures
        r == from@.is_prefix_of(chars@.skip(at as int)),
{
    if chars.len() - at < from.len() {
        return false;
    }
    let mut i: usize = 0;
    while i < from.len()
        invariant
            i <= from@.len(),
            at + from@.len() <= chars.len(),
            forall|j: int| 0 <= j < i ==> from@[j] == chars@.skip(at as int)[j],
        decreases from.len() - i,
    {
        if from[i] != chars[at + i] {
            assert(from@[i as int] != chars@.skip(at as int)[i as int]);
            return false;
        }
        i += 1;
    }
    assert(from@ =~= chars@.skip(at as int).take(from@.len() as int));
    true
}

/// A text with each occurrence of `from` replaced by `to`.
pub fn replace_all(text: &str, from: &str, to: &str) -> (r: String)
    requires
        from@.len() > 0,
    ensures
        r@ == replaced_all(text@, from@, to@),
{
    let chars = chars_of(text);
    let pattern = chars_of(from);
    let mut out: String = String::new();
    let mut i: usize = 0;
    assert(chars@.skip(0) =~= chars@);
    assert(out@ + replaced_all(text@, from@, to@) =~= replaced_all(text@, from@, to@));
    while i < chars.len()
        invariant
            i <= chars@.len(),
            chars@ == text@,
            pattern@ == from@,
            from@.len() > 0,
            replaced_all(text@, from@, to@) == out@ + replaced_all(text@.skip(i as int), from@, to@),
        decreases chars.len() - i,
    {
        let ghost rest = text@.skip(i as int);
        let ghost before = out@;
        if stands_at(&chars, &pattern, i) {
            out.append(to);
            assert(rest.skip(from@.len() as int) =~= text@.skip(i + from@.len()));
            assert(before + (to@ + replaced_all(text@.skip(i + from@.len()), from@, to@))
                =~= out@ + replaced_all(text@.skip(i + from@.len()), from@, to@));
            i += pattern.len();
        } else {
            out.push(chars[i]);
            assert(rest.skip(1) =~= text@.skip(i + 1));
            proof {
                if rest.len() < from@.len() {
                    assert(rest =~= seq![rest[0]] + rest.skip(1));
                }
            }
            assert(before + (seq![rest[0]] + replaced_all(text@.skip(i + 1), from@, to@)) =~= out@
                + replaced_all(text@.skip(i + 1), from@, to@));
            i += 1;
        }
    }
    assert(out@ =~= replaced_all(text@, from@, to@));
    out
}

// --- What holds of words and replacements ---

/// Whether no character of a text is white space.
pub open spec fn is_word(s: Seq<char>) -> bool {
    forall|i: int| 0 <= i < s.len() ==> !is_space(#[trigger] s[i])
}

/// The characters at the end are none of them white space.
proof fn lemma_ending_word(s: Seq<char>)
    ensures
        is_word(ending_word(s)),
    decreases s.len(),
{
    if s.len() > 0 && !is_space(s.last()) {
        lemma_ending_word(s.drop_last());
    }
}

/// The last word has no white space in it.
pub proof fn law_last_word_is_a_word(s: Seq<char>)
    ensures
        is_word(last_word(s)),
{
    lemma_ending_word(without_trailing_space(s));
}

/// A word behind some text that ends in white space, or behind nothing, is what
/// the text ends in.
proof fn lemma_ending_word_behind(before: Seq<char>, word: Seq<char>)
    requires
        is_word(word),
        before.len() == 0 || is_space(before.last()),
    ensures
        ending_word(before + word) == word,
    decreases word.len(),
{
    if word.len() == 0 {
        assert(before + word =~= before);
    } else {
        let shorter = word.drop_last();
        assert forall|i: int| 0 <= i < shorter.len() implies !is_space(#[trigger] shorter[i]) by {
            assert(word[i] == shorter[i]);
        }
        lemma_ending_word_behind(before, shorter);
        assert((before + word).drop_last() =~= before + shorter);
        assert((before + word).last() == word[word.len() - 1]);
        assert(shorter.push(word.last()) =~= word);
    }
}

/// A word behind some text that ends in white space, or behind nothing, is the
/// last word.
pub proof fn law_last_word_behind(before: Seq<char>, word: Seq<char>)
    requires
        word.len() > 0,
        is_word(word),
        before.len() == 0 || is_space(before.last()),
    ensures
        last_word(before + word) == word,
{
    assert((before + word).last() == word[word.len() - 1]);
    lemma_ending_word_behind(before, word);
}

/// White space at the end of a text makes no difference to its last word.
pub proof fn law_last_word_before_space(s: Seq<char>, c: char)
    requires
        is_space(c),
    ensures
        last_word(s.push(c)) == last_word(s),
{
    assert(s.push(c).drop_last() =~= s);
}

/// The last word of a word is the word.
pub proof fn law_last_word_of_word(word: Seq<char>)
    requires
        is_word(word),
    ensures
        last_word(word) == word,
{
    if word.len() > 0 {
        law_last_word_behind(Seq::empty(), word);
        assert(Seq::<char>::empty() + word =~= word);
    }
}

/// What stands before and after the first `c`, where the text is put together that
/// way.
pub proof fn law_split_undoes_join(before: Seq<char>, c: char, after: Seq<char>)
    requires
        !before.contains(c),
    ensures
        split_at_first(before.push(c) + after, c) == Some((before, after)),
{
    let s = before.push(c) + after;
    s.index_of_first_ensures(c);
    assert(s[before.len() as int] == c);
    assert forall|j: int| 0 <= j < before.len() implies s[j] != c by {
        assert(before[j] == s[j]);
        assert(before.contains(before[j]));
    }
    assert(s.index_of_first(c) == Some(before.len() as int));
    assert(s.take(before.len() as int) =~= before);
    assert(s.skip(before.len() as int + 1) =~= after);
}

/// Whether `part` stands at position `k` of a text.
pub open spec fn occurs_at(s: Seq<char>, part: Seq<char>, k: int) -> bool {
    0 <= k && k + part.len() <= s.len() && part.is_prefix_of(s.skip(k))
}

/// Whether `part` stands anywhere in a text.
pub open spec fn occurs(s: Seq<char>, part: Seq<char>) -> bool {
    exists|k: int| #[trigger] occurs_at(s, part, k)
}

/// Whether two texts differ in a position that both have.
pub open spec fn clash(a: Seq<char>, b: Seq<char>) -> bool {
    exists|i: int| 0 <= i < a.len() && i < b.len() && #[trigger] a[i] != b[i]
}

/// Whether no occurrence of `part` can begin in a copy of `to`, or run into one.
pub open spec fn keeps_apart(part: Seq<char>, to: Seq<char>) -> bool {
    &&& forall|k: int| 0 <= k < to.len() ==> clash(part, #[trigger] to.skip(k))
    &&& forall|j: int| 1 <= j < part.len() ==> clash(#[trigger] part.skip(j), to)
}

/// The end of `part` stands at the start of a text with replacements only where it
/// does without them.
proof fn lemma_end_before_replacement(
    part: Seq<char>,
    j: int,
    s: Seq<char>,
    from: Seq<char>,
    to: Seq<char>,
)
    requires
        keeps_apart(part, to),
        1 <= j <= part.len(),
        part.skip(j).is_prefix_of(replaced_all(s, from, to)),
    ensures
        part.skip(j).is_prefix_of(s),
    decreases s.len(),
{
    let end = part.skip(j);
    let all = replaced_all(s, from, to);
    if j == part.len() {
        assert(end =~= s.subrange(0, 0));
    } else if from.len() > 0 && s.len() >= from.len() {
        if from.is_prefix_of(s) {
            let i = choose|i: int| 0 <= i < end.len() && i < to.len() && #[trigger] end[i] != to[i];
            assert(end[i] == all[i]);
            assert(all[i] == to[i]);
        } else {
            let rest = replaced_all(s.skip(1), from, to);
            assert(end[0] == all[0]);
            assert(part.skip(j + 1) =~= rest.subrange(0, end.len() - 1)) by {
                assert forall|i: int| 0 <= i < end.len() - 1 implies part.skip(j + 1)[i]
                    == rest[i] by {
                    assert(end[i + 1] == all[i + 1]);
                }
            }
            lemma_end_before_replacement(part, j + 1, s.skip(1), from, to);
            assert(end =~= s.subrange(0, end.len() as int)) by {
                assert forall|i: int| 0 <= i < end.len() implies end[i] == s[i] by {
                    if i > 0 {
                        assert(part.skip(j + 1)[i - 1] == s.skip(1).subrange(
                            0,
                            end.len() - 1,
                        )[i - 1]);
                    }
                }
            }
        }
    }
}

/// What does not stand in a text does not stand in the rest of it.
proof fn lemma_occurs_in_rest(s: Seq<char>, part: Seq<char>, n: int)
    requires
        0 <= n <= s.len(),
        occurs(s.skip(n), part),
    ensures
        occurs(s, part),
{
    let k = choose|k: int| #[trigger] occurs_at(s.skip(n), part, k);
    assert(s.skip(n).skip(k) =~= s.skip(n + k));
    assert(occurs_at(s, part, n + k));
}

/// Replacements leave no occurrence of what was replaced, and make none of what
/// did not stand in the text, where its occurrences keep apart from what comes in.
#[verifier::spinoff_prover]
#[verifier::rlimit(50)]
pub proof fn law_replaced_text_is_free_of(
    s: Seq<char>,
    from: Seq<char>,
    to: Seq<char>,
    part: Seq<char>,
)
    requires
        from.len() > 0,
        part.len() > 0,
        part == from || !occurs(s, part),
        keeps_apart(part, to),
    ensures
        !occurs(replaced_all(s, from, to), part),
    decreases s.len(),
{
    let all = replaced_all(s, from, to);
    if occurs(all, part) {
        let k = choose|k: int| #[trigger] occurs_at(all, part, k);
        if s.len() < from.len() {
            assert(occurs_at(s, part, k));
        } else if from.is_prefix_of(s) {
            let left = s.skip(from.len() as int);
            if part != from && occurs(left, part) {
                lemma_occurs_in_rest(s, part, from.len() as int);
            }
            law_replaced_text_is_free_of(left, from, to, part);
            let rest = replaced_all(left, from, to);
            if k < to.len() {
                let end = to.skip(k);
                let i = choose|i: int|
                    0 <= i < part.len() && i < end.len() && #[trigger] part[i] != end[i];
                assert(part[i] == all.skip(k).subrange(0, part.len() as int)[i]);
                assert(all[k + i] == to[k + i]);
            } else {
                assert(all.skip(k) =~= rest.skip(k - to.len()));
                assert(occurs_at(rest, part, k - to.len()));
            }
        } else {
            let left = s.skip(1);
            if part != from && occurs(left, part) {
                lemma_occurs_in_rest(s, part, 1);
            }
            law_replaced_text_is_free_of(left, from, to, part);
            let rest = replaced_all(left, from, to);
            if k > 0 {
                assert(all.skip(k) =~= rest.skip(k - 1));
                assert(occurs_at(rest, part, k - 1));
            } else {
                assert(all.skip(0) =~= all);
                assert(part[0] == all.subrange(0, part.len() as int)[0]);
                assert(part.skip(1) =~= rest.subrange(0, part.len() - 1)) by {
                    assert forall|i: int| 0 <= i < part.len() - 1 implies part.skip(1)[i]
                        == rest[i] by {
                        assert(part[i + 1] == all.subrange(0, part.len() as int)[i + 1]);
                    }
                }
                lemma_end_before_replacement(part, 1, left, from, to);
                assert(part =~= s.subrange(0, part.len() as int)) by {
                    assert forall|i: int| 0 <= i < part.len() implies part[i] == s[i] by {
                        if i > 0 {
                            assert(part.skip(1)[i - 1] == left.subrange(0, part.len() - 1)[i - 1]);
                        }
                    }
                }
                assert(s.skip(0) =~= s);
                assert(occurs_at(s, part, 0));
            }
        }
    }
}

/// A text without occurrences of what is to be replaced stays as it is.
pub proof fn law_nothing_to_replace(s: Seq<char>, from: Seq<char>, to: Seq<char>)
    requires
        !occurs(s, from),
    ensures
        replaced_all(s, from, to) == s,
    decreases s.len(),
{
    if from.len() > 0 && s.len() >= from.len() {
        assert(s.skip(0) =~= s);
        if from.is_prefix_of(s) {
            assert(occurs_at(s, from, 0));
        }
        if occurs(s.skip(1), from) {
            lemma_occurs_in_rest(s, from, 1);
        }
        law_nothing_to_replace(s.skip(1), from, to);
        assert(seq![s[0]] + s.skip(1) =~= s);
    }
}

// --- What numbers, words and parts are ---

/// A text of one character is a number exactly where the character is a digit, and so
/// is one behind a plus sign. Nothing, and a plus sign alone, are no numbers.
pub proof fn law_number_of_one_digit(c: char)
    ensures
        number_of(Seq::empty()) is None,
        number_of(seq![c]) == if '0' <= c <= '9' {
            Some((c as int - 48) as u64)
        } else {
            None
        },
        number_of(seq!['+', c]) == if '0' <= c <= '9' {
            Some((c as int - 48) as u64)
        } else {
            None
        },
{
    let one = seq![c];
    let signed = seq!['+', c];
    assert(signed.drop_first() =~= one);
    assert(one.drop_last() =~= Seq::<char>::empty());
    assert(decimal_value(Seq::empty()) == 0);
    assert(seq!['+'].drop_first() =~= Seq::<char>::empty());
    if '0' <= c <= '9' {
        assert(all_digits(one));
        assert(decimal_value(one) == digit_value(c));
    } else {
        assert(!is_digit(one[0]));
    }
}

/// A text of more characters is a number exactly where the text without the last is
/// one, the last is a digit, and the number does not get too large.
pub proof fn law_number_of_more_digits(s: Seq<char>, c: char)
    requires
        s.len() > 0,
        s != seq!['+'],
    ensures
        number_of(s.push(c)) == match number_of(s) {
            Some(n) => if '0' <= c <= '9' && n * 10 + (c as int - 48) <= u64::MAX {
                Some((n * 10 + (c as int - 48)) as u64)
            } else {
                None
            },
            None => None,
        },
{
    let digits = unsigned_digits(s);
    let more = unsigned_digits(s.push(c));
    assert(more =~= digits.push(c));
    assert(more.drop_last() =~= digits);
    assert(digits.len() > 0) by {
        if s[0] == '+' && s.len() == 1 {
            assert(s =~= seq!['+']);
        }
    }
    if all_digits(digits) && is_digit(c) {
        assert forall|i: int| 0 <= i < more.len() implies is_digit(#[trigger] more[i]) by {
            if i < digits.len() {
                assert(more[i] == digits[i]);
            }
        }
    }
    if all_digits(more) {
        assert(is_digit(more[digits.len() as int]));
        assert forall|i: int| 0 <= i < digits.len() implies is_digit(#[trigger] digits[i]) by {
            assert(more[i] == digits[i]);
        }
    }
}

/// The digits of a number are digits, and begin with none that could be left out.
pub proof fn law_decimal_has_no_leading_zero(n: u64)
    ensures
        decimal(n as nat).len() > 0,
        forall|i: int|
            0 <= i < decimal(n as nat).len() ==> '0' <= #[trigger] decimal(n as nat)[i] <= '9',
        decimal(n as nat).len() > 1 ==> decimal(n as nat)[0] != '0',
    decreases n,
{
    let s = decimal(n as nat);
    lemma_decimal(n as nat);
    assert forall|i: int| 0 <= i < s.len() implies '0' <= #[trigger] s[i] <= '9' by {
        assert(is_digit(s[i]));
    }
    if n >= 10 {
        law_decimal_has_no_leading_zero(n / 10);
        assert(s[0] == decimal((n / 10) as nat)[0]);
        if n / 10 < 10 {
            assert(decimal((n / 10) as nat)[0] == digit_char((n / 10) as nat));
        } else {
            lemma_decimal(((n / 10) / 10) as nat);
            assert(decimal((n / 10) as nat).len() == decimal(((n / 10) / 10) as nat).len() + 1);
        }
    }
}

/// White space are these characters and no others.
pub proof fn law_white_space(c: char)
    ensures
        is_space(c) <==> {
            let n = c as int;
            9 <= n <= 13 || n == 32 || n == 0x85 || n == 0xa0 || n == 0x1680 || 0x2000 <= n
                <= 0x200a || n == 0x2028 || n == 0x2029 || n == 0x202f || n == 0x205f || n == 0x3000
        },
{
}

/// What is cut off at the end is white space, and what is left does not end in it.
proof fn lemma_without_trailing_space(s: Seq<char>) -> (n: int)
    ensures
        0 <= n <= s.len(),
        without_trailing_space(s) == s.take(n),
        n > 0 ==> !is_space(s[n - 1]),
        forall|i: int| n <= i < s.len() ==> is_space(#[trigger] s[i]),
    decreases s.len(),
{
    if s.len() > 0 && is_space(s.last()) {
        let n = lemma_without_trailing_space(s.drop_last());
        assert(s.drop_last().take(n) =~= s.take(n));
        assert forall|i: int| n <= i < s.len() implies is_space(#[trigger] s[i]) by {
            if i < s.len() - 1 {
                assert(s[i] == s.drop_last()[i]);
            }
        }
        n
    } else {
        assert(s.take(s.len() as int) =~= s);
        s.len() as int
    }
}

/// The word that a text ends in begins behind white space, or at the start.
proof fn lemma_ending_word_starts(s: Seq<char>) -> (n: int)
    ensures
        0 <= n <= s.len(),
        ending_word(s) == s.skip(n),
        n > 0 ==> is_space(s[n - 1]),
        forall|i: int| n <= i < s.len() ==> !is_space(#[trigger] s[i]),
    decreases s.len(),
{
    if s.len() == 0 || is_space(s.last()) {
        assert(s.skip(s.len() as int) =~= Seq::<char>::empty());
        s.len() as int
    } else {
        let n = lemma_ending_word_starts(s.drop_last());
        assert(s.drop_last().skip(n).push(s.last()) =~= s.skip(n));
        assert forall|i: int| n <= i < s.len() implies !is_space(#[trigger] s[i]) by {
            if i < s.len() - 1 {
                assert(s[i] == s.drop_last()[i]);
            }
        }
        n
    }
}

/// The last word of a text is a stretch of it without white space. Before it the text
/// begins or has white space, and behind it has white space only. It is empty only
/// where the text is all white space.
pub proof fn law_last_word_stands_in_text(s: Seq<char>)
    ensures
        exists|a: int, b: int|
            0 <= a <= b <= s.len() && last_word(s) == #[trigger] s.subrange(a, b) && (a > 0
                ==> is_space(s[a - 1])) && (forall|i: int| a <= i < b ==> !is_space(#[trigger] s[i]))
                && (forall|i: int| b <= i < s.len() ==> is_space(#[trigger] s[i])) && (a == b ==> a
                == 0),
{
    let b = lemma_without_trailing_space(s);
    let t = s.take(b);
    let a = lemma_ending_word_starts(t);
    assert(t.skip(a) =~= s.subrange(a, b));
    assert forall|i: int| a <= i < b implies !is_space(#[trigger] s[i]) by {
        assert(t[i] == s[i]);
    }
    if a > 0 {
        assert(t[a - 1] == s[a - 1]);
    }
}

/// What is cut off at the end is `c` only, and what is left does not end in it.
pub proof fn law_trim_stops_at_last_other(s: Seq<char>, c: char)
    ensures
        exists|n: int|
            0 <= n <= s.len() && without_trailing(s, c) == #[trigger] s.take(n) && (n > 0 ==> s[n
                - 1] != c) && forall|i: int| n <= i < s.len() ==> #[trigger] s[i] == c,
    decreases s.len(),
{
    if s.len() > 0 && s.last() == c {
        let rest = s.drop_last();
        law_trim_stops_at_last_other(rest, c);
        let n = choose|n: int|
            0 <= n <= rest.len() && without_trailing(rest, c) == #[trigger] rest.take(n) && (n > 0
                ==> rest[n - 1] != c) && forall|i: int|
                n <= i < rest.len() ==> #[trigger] rest[i] == c;
        assert(rest.take(n) =~= s.take(n));
        assert forall|i: int| n <= i < s.len() implies #[trigger] s[i] == c by {
            if i < rest.len() {
                assert(rest[i] == s[i]);
            }
        }
    } else {
        assert(s.take(s.len() as int) =~= s);
    }
}

/// A text is split at its first `c`, which belongs to neither part; it is not split
/// exactly where it has none.
pub proof fn law_split_is_at_the_first(s: Seq<char>, c: char)
    ensures
        match split_at_first(s, c) {
            Some((before, after)) => s == before.push(c) + after && !before.contains(c),
            None => !s.contains(c),
        },
{
    s.index_of_first_ensures(c);
    if let Some(i) = s.index_of_first(c) {
        assert(s =~= s.take(i).push(c) + s.skip(i + 1));
        assert(!s.take(i).contains(c)) by {
            if s.take(i).contains(c) {
                let j = choose|j: int| 0 <= j < s.take(i).len() && s.take(i)[j] == c;
                assert(s[j] == c);
            }
        }
    }
}

/// An occurrence at the start is replaced, and what follows it is replaced on its own.
pub proof fn law_replace_at_start(rest: Seq<char>, from: Seq<char>, to: Seq<char>)
    requires
        from.len() > 0,
    ensures
        replaced_all(from + rest, from, to) == to + replaced_all(rest, from, to),
{
    let s = from + rest;
    assert(s.subrange(0, from.len() as int) =~= from);
    assert(from.is_prefix_of(s));
    assert(s.skip(from.len() as int) =~= rest);
}

/// A character at which no occurrence begins stays, and what follows it is replaced on
/// its own.
pub proof fn law_replace_keeps_others(c: char, rest: Seq<char>, from: Seq<char>, to: Seq<char>)
    requires
        from.len() > 0,
        !from.is_prefix_of(seq![c] + rest),
    ensures
        replaced_all(seq![c] + rest, from, to) == seq![c] + replaced_all(rest, from, to),
        replaced_all(Seq::empty(), from, to) == Seq::<char>::empty(),
{
    let s = seq![c] + rest;
    assert(s.skip(1) =~= rest);
}

} // verus!
