//! Decimal numbers in text.

use vstd::prelude::*;

verus! {

/// Whether a character is a decimal digit.
pub open spec fn is_digit(c: char) -> bool {
    '0' <= c <= '9'
}

/// The number that a string of digits stands for.
pub open spec fn value(digits: Seq<char>) -> int
    decreases digits.len(),
{
    if digits.len() == 0 {
        0
    } else {
        value(digits.drop_last()) * 10 + (digits.last() as int - '0' as int)
    }
}

/// The digits of a number in text, which may start with a plus sign.
pub open spec fn unsigned_digits(text: Seq<char>) -> Seq<char> {
    if text.len() > 0 && text[0] == '+' {
        text.drop_first()
    } else {
        text
    }
}

/// The `usize` that the text stands for: an optional plus sign and one or more
/// digits, whose value fits.
pub open spec fn parsed(text: Seq<char>) -> Option<usize> {
    let digits = unsigned_digits(text);
    if digits.len() > 0 && (forall|i: int| 0 <= i < digits.len() ==> is_digit(#[trigger] digits[i]))
        && value(digits) <= usize::MAX {
        Some(value(digits) as usize)
    } else {
        None
    }
}

/// The characters of `text`.
pub fn chars_of(text: &str) -> (chars: Vec<char>)
    ensures
        chars@ == text@,
{
    let mut chars: Vec<char> = Vec::new();
    for c in iter: text.chars()
        invariant
            iter.seq() == text@,
            chars@ == text@.take(iter.index()),
    {
        chars.push(c);
    }
    assert(text@.take(text@.len() as int) =~= text@);
    chars
}

/// A longer string of digits does not stand for a smaller number.
proof fn lemma_value_grows(digits: Seq<char>, n: int)
    requires
        forall|i: int| 0 <= i < digits.len() ==> is_digit(#[trigger] digits[i]),
        0 <= n <= digits.len(),
    ensures
        0 <= value(digits.take(n)) <= value(digits),
    decreases digits.len(),
{
    if n == digits.len() {
        assert(digits.take(n) =~= digits);
        if n > 0 {
            let rest = digits.drop_last();
            assert forall|i: int| 0 <= i < rest.len() implies is_digit(#[trigger] rest[i]) by {
                assert(rest[i] == digits[i]);
            }
            lemma_value_grows(rest, rest.len() as int);
            assert(rest.take(rest.len() as int) =~= rest);
            assert(is_digit(digits[n - 1]));
        }
    } else {
        let rest = digits.drop_last();
        assert forall|i: int| 0 <= i < rest.len() implies is_digit(#[trigger] rest[i]) by {
            assert(rest[i] == digits[i]);
        }
        assert(rest.take(n) =~= digits.take(n));
        lemma_value_grows(rest, n);
        assert(is_digit(digits[digits.len() - 1]));
    }
}

/// Reads the characters from `from` up to `to` as a `usize`.
pub fn parse_range(chars: &Vec<char>, from: usize, to: usize) -> (number: Option<usize>)
    requires
        from <= to <= chars@.len(),
    ensures
        number == parsed(chars@.subrange(from as int, to as int)),
{
    let ghost text = chars@.subrange(from as int, to as int);
    let ghost digits = unsigned_digits(text);
    let start: usize = if from < to && chars[from] == '+' { from + 1 } else { from };
    assert(digits =~= chars@.subrange(start as int, to as int));
    if start == to {
        return None;
    }
    let mut number: usize = 0;
    let mut i: usize = start;
    assert(digits.take(0) =~= Seq::<char>::empty());
    while i < to
        invariant
            from <= start <= i <= to <= chars@.len(),
            start < to,
            text == chars@.subrange(from as int, to as int),
            digits == unsigned_digits(text),
            digits == chars@.subrange(start as int, to as int),
            forall|k: int| 0 <= k < i - start ==> is_digit(#[trigger] digits[k]),
            number == value(digits.take(i - start)),
        decreases to - i,
    {
        let c: char = chars[i];
        let ghost n = i - start;
        assert(digits[n] == c);
        if !('0' <= c && c <= '9') {
            return None;
        }
        proof {
            assert(digits.take(n + 1).drop_last() =~= digits.take(n));
            assert(digits.take(n + 1).last() == c);
            if forall|k: int| 0 <= k < digits.len() ==> is_digit(#[trigger] digits[k]) {
                lemma_value_grows(digits, n + 1);
            }
        }
        let digit: usize = (c as u32 - '0' as u32) as usize;
        number = match number.checked_mul(10) {
            Some(tens) => match tens.checked_add(digit) {
                Some(sum) => sum,
                None => {
                    return None;
                },
            },
            None => {
                return None;
            },
        };
        i = i + 1;
    }
    assert(digits.take(digits.len() as int) =~= digits);
    Some(number)
}

/// Reads `text` as a `usize`.
pub fn parse(text: &str) -> (number: Option<usize>)
    ensures
        number == parsed(text@),
{
    let chars = chars_of(text);
    assert(chars@.subrange(0, chars@.len() as int) =~= text@);
    parse_range(&chars, 0, chars.len())
}

/// The digit that stands for `n`, which is below 10.
pub open spec fn digit(n: int) -> char {
    (n + '0' as int) as char
}

/// The decimal digits of `n`, without leading zeros.
pub open spec fn digits_of(n: nat) -> Seq<char>
    decreases n,
{
    if n < 10 {
        seq![digit(n as int)]
    } else {
        digits_of(n / 10).push(digit(n as int % 10))
    }
}

/// A number in decimal, with a minus sign where it is negative.
pub open spec fn number_text(n: int) -> Seq<char> {
    if n < 0 {
        seq!['-'] + digits_of((-n) as nat)
    } else {
        digits_of(n as nat)
    }
}

/// Whether a text is made of digits, of which there is at least one.
pub open spec fn is_digits(text: Seq<char>) -> bool {
    text.len() > 0 && forall|i: int| 0 <= i < text.len() ==> is_digit(#[trigger] text[i])
}

/// Reading a number goes digit by digit: a digit stands for itself, and one more
/// digit makes ten times the number and the digit, as long as a `usize` holds it.
/// A plus sign or a zero before the digits changes nothing.
pub proof fn law_numbers_are_read_digit_by_digit(text: Seq<char>, c: char)
    requires
        is_digit(c),
    ensures
        parsed(seq![c]) == Some((c as int - '0' as int) as usize),
        is_digits(text) ==> {
            &&& parsed(text.push(c)) == match parsed(text) {
                Some(n) => if n * 10 + (c as int - '0' as int) <= usize::MAX {
                    Some((n * 10 + (c as int - '0' as int)) as usize)
                } else {
                    None
                },
                None => None,
            }
            &&& parsed(seq!['+'] + text) == parsed(text)
            &&& parsed(seq!['0'] + text) == parsed(text)
        },
{
    let one = seq![c];
    assert(one.drop_last() =~= seq![]);
    reveal_with_fuel(value, 2);
    assert(is_digits(one));
    assert(unsigned_digits(one) == one);
    if is_digits(text) {
        let more = text.push(c);
        assert(is_digit(text[0]) && more[0] == text[0]);
        assert(more.drop_last() =~= text);
        assert(is_digits(more)) by {
            assert forall|i: int| 0 <= i < more.len() implies is_digit(#[trigger] more[i]) by {
                if i < text.len() {
                    assert(is_digit(text[i]));
                }
            }
        }
        lemma_value_grows(more, text.len() as int);
        assert(more.take(text.len() as int) =~= text);
        let signed = seq!['+'] + text;
        assert(signed.drop_first() =~= text);
        let padded = seq!['0'] + text;
        assert(is_digits(padded)) by {
            assert forall|i: int| 0 <= i < padded.len() implies is_digit(#[trigger] padded[i]) by {
                if i > 0 {
                    assert(is_digit(text[i - 1]));
                }
            }
        }
        lemma_zero_adds_nothing(text);
    }
}

proof fn lemma_zero_adds_nothing(text: Seq<char>)
    ensures
        value(seq!['0'] + text) == value(text),
    decreases text.len(),
{
    let padded = seq!['0'] + text;
    if text.len() == 0 {
        assert(padded.drop_last() =~= seq![]);
        reveal_with_fuel(value, 2);
    } else {
        assert(padded.drop_last() =~= seq!['0'] + text.drop_last());
        lemma_zero_adds_nothing(text.drop_last());
    }
}

/// Only digits, behind a plus sign or not, are read as a number.
pub proof fn law_nothing_else_is_a_number(text: Seq<char>)
    requires
        parsed(text) is Some,
    ensures
        is_digits(text) || (text[0] == '+' && is_digits(text.drop_first())),
{
}

/// What is written in decimal reads back as the number that was written, for
/// which it takes only digits, without zeros before them. A negative number has a
/// minus sign before its digits.
pub proof fn law_numbers_read_back(n: nat)
    ensures
        is_digits(digits_of(n)),
        value(digits_of(n)) == n,
        n > 0 ==> digits_of(n)[0] != '0',
        n <= usize::MAX ==> parsed(digits_of(n)) == Some(n as usize),
        number_text(n as int) == digits_of(n),
        n > 0 ==> number_text(-n) == seq!['-'] + digits_of(n),
    decreases n,
{
    reveal_with_fuel(value, 2);
    let c = digit(n as int % 10);
    assert(is_digit(c) && c as int - '0' as int == n % 10);
    if n < 10 {
        assert(digits_of(n) =~= seq![c]);
        assert(seq![c].drop_last() =~= seq![]);
    } else {
        law_numbers_read_back(n / 10);
        let front = digits_of(n / 10);
        assert(digits_of(n).drop_last() =~= front);
        assert forall|i: int| 0 <= i < digits_of(n).len() implies is_digit(
            #[trigger] digits_of(n)[i],
        ) by {
            if i < front.len() {
                assert(is_digit(front[i]));
            }
        }
    }
    assert(is_digit(digits_of(n)[0]));
}

fn digit_text(n: u64) -> (text: &'static str)
    requires
        n < 10,
    ensures
        text@ == seq![digit(n as int)],
{
    proof {
        reveal_strlit("0");
        reveal_strlit("1");
        reveal_strlit("2");
        reveal_strlit("3");
        reveal_strlit("4");
        reveal_strlit("5");
        reveal_strlit("6");
        reveal_strlit("7");
        reveal_strlit("8");
        reveal_strlit("9");
    }
    let text = match n {
        0 => "0",
        1 => "1",
        2 => "2",
        3 => "3",
        4 => "4",
        5 => "5",
        6 => "6",
        7 => "7",
        8 => "8",
        _ => "9",
    };
    assert(text@ =~= seq![digit(n as int)]);
    text
}

/// Appends the digits of `n` to `text`.
pub fn append_digits(text: &mut String, n: u64)
    ensures
        final(text)@ == old(text)@ + digits_of(n as nat),
    decreases n,
{
    if n >= 10 {
        append_digits(text, n / 10);
    }
    text.append(digit_text(n % 10));
    assert(text@ =~= old(text)@ + digits_of(n as nat));
}

/// Appends `n` to `text`.
pub fn append_number(text: &mut String, n: i64)
    ensures
        final(text)@ == old(text)@ + number_text(n as int),
{
    if n < 0 {
        proof {
            reveal_strlit("-");
        }
        text.append("-");
        let magnitude: u64 = if n == i64::MIN { 0x8000_0000_0000_0000 } else { (-n) as u64 };
        append_digits(text, magnitude);
        assert(text@ =~= old(text)@ + number_text(n as int));
    } else {
        append_digits(text, n as u64);
    }
}

} // verus!
