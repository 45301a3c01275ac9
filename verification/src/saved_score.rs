//! The best score as it is kept between runs: plain text, one decimal number.
//!
//! Reading is lenient about white space around the number and about one plus
//! sign in front of it. Whatever else the text holds, it counts as no saved
//! score at all, which is a best score of zero.

use vstd::prelude::*;
use vstd::string::StringExecFns;

verus! {

/// White space, as Unicode has it.
pub open spec fn is_space(c: char) -> bool {
    let code = c as u32;
    ||| 0x09 <= code <= 0x0d
    ||| code == 0x20
    ||| code == 0x85
    ||| code == 0xa0
    ||| code == 0x1680
    ||| 0x2000 <= code <= 0x200a
    ||| code == 0x2028
    ||| code == 0x2029
    ||| code == 0x202f
    ||| code == 0x205f
    ||| code == 0x3000
}

/// One of the ten decimal digits.
pub open spec fn is_digit(c: char) -> bool {
    '0' <= c <= '9'
}

/// The digit that stands for `value`, which is below ten.
pub open spec fn digit_char(value: int) -> char {
    (value + 48) as u8 as char
}

/// The text without the white space at its start.
pub open spec fn trimmed_start(text: Seq<char>) -> Seq<char>
    decreases text.len(),
{
    if text.len() > 0 && is_space(text[0]) {
        trimmed_start(text.skip(1))
    } else {
        text
    }
}

/// The text without the white space at its end.
pub open spec fn trimmed_end(text: Seq<char>) -> Seq<char>
    decreases text.len(),
{
    if text.len() > 0 && is_space(text.last()) {
        trimmed_end(text.drop_last())
    } else {
        text
    }
}

/// The text without the white space at its two ends.
pub open spec fn trimmed(text: Seq<char>) -> Seq<char> {
    trimmed_end(trimmed_start(text))
}

/// The text without the plus sign in front of it, if there is one.
pub open spec fn unsigned(text: Seq<char>) -> Seq<char> {
    if text.len() > 0 && text[0] == '+' {
        text.skip(1)
    } else {
        text
    }
}

/// Every character is a decimal digit.
pub open spec fn all_digits(text: Seq<char>) -> bool {
    forall|i: int| 0 <= i < text.len() ==> is_digit(#[trigger] text[i])
}

/// The number that the digits spell.
pub open spec fn decimal(digits: Seq<char>) -> nat
    decreases digits.len(),
{
    if digits.len() == 0 {
        0
    } else {
        (10 * decimal(digits.drop_last()) + (digits.last() as u32 - 48)) as nat
    }
}

/// The number that the text holds: after the white space around it and one
/// plus sign in front of it are taken away, at least one digit is left, and
/// nothing but digits, and they spell a number that fits in 32 bits.
pub open spec fn parsed(text: Seq<char>) -> Option<u32> {
    let digits = unsigned(trimmed(text));
    if digits.len() > 0 && all_digits(digits) && decimal(digits) <= u32::MAX {
        Some(decimal(digits) as u32)
    } else {
        None
    }
}

/// The best score that the text stands for: the number it holds, or zero
/// where it holds none.
pub open spec fn best_score_in(text: Seq<char>) -> u32 {
    match parsed(text) {
        Some(score) => score,
        None => 0,
    }
}

/// The decimal digits of a number, without leading zeros.
pub open spec fn digits_of(n: nat) -> Seq<char>
    decreases n,
{
    if n < 10 {
        seq![digit_char(n as int)]
    } else {
        digits_of(n / 10).push(digit_char((n % 10) as int))
    }
}

/// The digits of a number are digits, at least one, and spell the number.
pub proof fn lemma_digits_of(n: nat)
    ensures
        digits_of(n).len() > 0,
        all_digits(digits_of(n)),
        decimal(digits_of(n)) == n,
    decreases n,
{
    reveal_with_fuel(decimal, 2);
    if n < 10 {
        assert(digits_of(n).drop_last() =~= Seq::<char>::empty());
    } else {
        lemma_digits_of(n / 10);
        assert(digits_of(n).drop_last() =~= digits_of(n / 10));
    }
}

/// Text of digits has no white space to trim and no sign to take away.
pub proof fn lemma_digits_bare(digits: Seq<char>)
    requires
        digits.len() > 0,
        all_digits(digits),
    ensures
        trimmed(digits) == digits,
        unsigned(digits) == digits,
{
    assert(is_digit(digits[0]));
    assert(is_digit(digits[digits.len() - 1]));
}

/// A score that is written and read again is the same score.
pub proof fn lemma_read_what_was_written(score: u32)
    ensures
        best_score_in(digits_of(score as nat)) == score,
{
    lemma_digits_of(score as nat);
    lemma_digits_bare(digits_of(score as nat));
}

/// The digits spell no less with every digit that follows.
proof fn lemma_decimal_grows(digits: Seq<char>, n: int)
    requires
        all_digits(digits),
        0 <= n <= digits.len(),
    ensures
        decimal(digits.take(n)) <= decimal(digits),
    decreases digits.len() - n,
{
    if n < digits.len() {
        lemma_decimal_grows(digits, n + 1);
        assert(digits.take(n + 1).drop_last() =~= digits.take(n));
        assert(is_digit(digits[n]));
    } else {
        assert(digits.take(n) =~= digits);
    }
}

/// The characters of a text.
fn chars_of(text: &str) -> (chars: Vec<char>)
    ensures
        chars@ == text@,
{
    let mut chars: Vec<char> = Vec::new();
    for c in it: text.chars()
        invariant
            it.seq() == text@,
            chars@ == text@.take(it.index() as int),
    {
        chars.push(c);
        assert(text@.take(it.index() + 1) =~= text@.take(it.index() as int).push(c));
    }
    assert(text@.take(text@.len() as int) =~= text@);
    chars
}

/// Whether the character is white space.
fn is_space_char(c: char) -> (space: bool)
    ensures
        space == is_space(c),
{
    let code = c as u32;
    (0x09 <= code && code <= 0x0d) || code == 0x20 || code == 0x85 || code == 0xa0 || code
        == 0x1680 || (0x2000 <= code && code <= 0x200a) || code == 0x2028 || code == 0x2029
        || code == 0x202f || code == 0x205f || code == 0x3000
}

/// Reads the best score from the text of the file that keeps it. Text that
/// does not hold a number, or holds one too large, gives zero.
pub fn parse_best_score(text: &str) -> (score: u32)
    ensures
        score == best_score_in(text@),
{
    let chars = chars_of(text);
    let n = chars.len();
    let mut start: usize = 0;
    assert(chars@.skip(0) =~= chars@);
    while start < n && is_space_char(chars[start])
        invariant
            start <= n,
            n == chars@.len(),
            trimmed_start(chars@) == trimmed_start(chars@.skip(start as int)),
        decreases n - start,
    {
        assert(chars@.skip(start as int).skip(1) =~= chars@.skip(start + 1));
        start += 1;
    }
    assert(trimmed_start(chars@) == chars@.skip(start as int));
    assert(chars@.skip(start as int) =~= chars@.subrange(start as int, n as int));
    let mut end: usize = n;
    while end > start && is_space_char(chars[end - 1])
        invariant
            start <= end <= n,
            n == chars@.len(),
            trimmed(chars@) == trimmed_end(chars@.subrange(start as int, end as int)),
        decreases end - start,
    {
        assert(chars@.subrange(start as int, end as int).drop_last() =~= chars@.subrange(
            start as int,
            end - 1,
        ));
        end -= 1;
    }
    assert(trimmed(chars@) == chars@.subrange(start as int, end as int));
    let mut at: usize = start;
    if at < end && chars[at] == '+' {
        assert(chars@.subrange(start as int, end as int).skip(1) =~= chars@.subrange(
            start + 1,
            end as int,
        ));
        at += 1;
    }
    let ghost digits = chars@.subrange(at as int, end as int);
    assert(digits == unsigned(trimmed(chars@)));
    if at == end {
        return 0;
    }
    let first = at;
    let mut value: u32 = 0;
    assert(digits.take(0) =~= Seq::<char>::empty());
    while at < end
        invariant
            first <= at <= end <= n,
            n == chars@.len(),
            digits == chars@.subrange(first as int, end as int),
            digits == unsigned(trimmed(text@)),
            all_digits(digits.take(at - first)),
            value == decimal(digits.take(at - first)),
        decreases end - at,
    {
        let c = chars[at];
        let ghost seen = digits.take(at - first + 1);
        assert(seen.drop_last() =~= digits.take(at - first));
        assert(seen.last() == c);
        if !(c >= '0' && c <= '9') {
            assert(!is_digit(digits[at - first]));
            return 0;
        }
        assert forall|i: int| 0 <= i < seen.len() implies is_digit(#[trigger] seen[i]) by {
            if i < at - first {
                assert(seen[i] == digits.take(at - first)[i]);
            }
        }
        let digit = c as u32 - 48;
        let spelled = match value.checked_mul(10) {
            Some(tens) => tens.checked_add(digit),
            None => None,
        };
        match spelled {
            Some(more) => {
                value = more;
            },
            None => {
                proof {
                    assert(decimal(seen) == 10 * value + digit);
                    if all_digits(digits) {
                        lemma_decimal_grows(digits, at - first + 1);
                    }
                }
                return 0;
            },
        }
        at += 1;
    }
    assert(digits.take(at - first) =~= digits);
    value
}

/// The text of one decimal digit.
fn digit_text(value: u32) -> (text: &'static str)
    requires
        value < 10,
    ensures
        text@ == seq![digit_char(value as int)],
{
    proof {
        reveal_strlit("0");
        reveal_strlit("1");
        reveal_strlit("2");
        reveal_strlit("3");
        reveal_strlit("4");
        reveal_strlit("5");
        reveal_strlit("6");
        reveal_strlit("7");
        reveal_strlit("8");
        reveal_strlit("9");
    }
    let text = match value {
        0 => "0",
        1 => "1",
        2 => "2",
        3 => "3",
        4 => "4",
        5 => "5",
        6 => "6",
        7 => "7",
        8 => "8",
        _ => "9",
    };
    assert(text@ =~= seq![digit_char(value as int)]);
    text
}

/// Appends the decimal digits of `n` to the text.
fn append_digits(text: &mut String, n: u32)
    ensures
        final(text)@ == old(text)@ + digits_of(n as nat),
    decreases n,
{
    if n >= 10 {
        append_digits(text, n / 10);
    }
    text.append(digit_text(n % 10));
    assert(text@ =~= old(text)@ + digits_of(n as nat));
}

/// Writes the best score as the text of the file that keeps it: its decimal
/// digits and nothing else.
pub fn format_best_score(score: u32) -> (text: String)
    ensures
        text@ == digits_of(score as nat),
        best_score_in(text@) == score,
{
    let mut text = String::new();
    append_digits(&mut text, score);
    proof {
        assert(Seq::<char>::empty() + digits_of(score as nat) =~= digits_of(score as nat));
        lemma_read_what_was_written(score);
    }
    text
}

} // verus!
