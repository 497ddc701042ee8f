//! Decimal numbers in text.

use vstd::prelude::*;

verus! {

/// Whether a character is a decimal digit.
pub open spec fn is_digit(c: char) -> bool {
    '0' <= c <= '9'
}

/// The digit for a number below ten.
pub open spec fn digit(n: nat) -> char {
    (48 + n) as char
}

/// The number that decimal digits stand for.
pub open spec fn digits_value(digits: Seq<char>) -> nat
    decreases digits.len(),
{
    if digits.len() == 0 {
        0
    } else {
        (digits_value(digits.drop_last()) * 10 + (digits.last() as nat - 48)) as nat
    }
}

/// The decimal digits of a number, with zeros in front if there are fewer than
/// `width`.
pub open spec fn padded(n: nat, width: nat) -> Seq<char>
    decreases n, width,
{
    if n < 10 && width <= 1 {
        seq![digit(n)]
    } else {
        padded(n / 10, if width == 0 { 0 } else { (width - 1) as nat }).push(digit(n % 10))
    }
}

/// The decimal digits of a number.
pub open spec fn decimal(n: nat) -> Seq<char> {
    padded(n, 0)
}

/// Every character is a digit.
pub open spec fn all_digits(text: Seq<char>) -> bool {
    forall|i: int| 0 <= i < text.len() ==> is_digit(#[trigger] text[i])
}

/// A text without the plus sign that it may start with.
pub open spec fn unsigned(text: Seq<char>) -> Seq<char> {
    if text.len() > 0 && text[0] == '+' {
        text.skip(1)
    } else {
        text
    }
}

/// The number that a text spells: an optional plus sign and at least one digit,
/// and no more than `max`.
pub open spec fn parsed_number(text: Seq<char>, max: u64) -> Option<u64> {
    let digits = unsigned(text);
    if digits.len() > 0 && all_digits(digits) && digits_value(digits) <= max {
        Some(digits_value(digits) as u64)
    } else {
        None
    }
}

/// The characters of a string.
pub fn chars_of(text: &str) -> (chars: Vec<char>)
    ensures
        chars@ == text@,
{
    let mut chars: Vec<char> = Vec::new();
    for c in iter: text.chars()
        invariant
            chars@ == iter.seq().take(iter.index() as int),
    {
        chars.push(c);
        assert(iter.seq().take(iter.index() + 1) =~= iter.seq().take(iter.index() as int).push(c));
    }
    proof {
        let all = vstd::std_specs::iter::IteratorSpec::remaining(
            &vstd::string::spec_iter(text),
        );
        assert(all.take(all.len() as int) =~= all);
    }
    chars
}

/// Parses a number of at most `max`.
pub fn parse_number(text: &str, max: u64) -> (number: Option<u64>)
    ensures
        number == parsed_number(text@, max),
{
    parse_chars(chars_of(text).as_slice(), max)
}

/// Parses a number of at most `max` from characters.
pub fn parse_chars(chars: &[char], max: u64) -> (number: Option<u64>)
    ensures
        number == parsed_number(chars@, max),
{
    let start: usize = if chars.len() > 0 && chars[0] == '+' {
        1
    } else {
        0
    };
    let ghost digits = unsigned(chars@);
    assert(digits =~= chars@.skip(start as int));
    if start >= chars.len() {
        return None;
    }
    let mut value: u64 = 0;
    let mut i: usize = start;
    while i < chars.len()
        invariant
            start <= i <= chars@.len(),
            start <= 1,
            digits == chars@.skip(start as int),
            digits == unsigned(chars@),
            digits.len() > 0,
            forall|j: int| 0 <= j < i - start ==> is_digit(#[trigger] digits[j]),
            value == digits_value(digits.take(i - start)),
            value <= max,
        decreases chars@.len() - i,
    {
        let c: char = chars[i];
        assert(digits[i - start] == c);
        if c < '0' || c > '9' {
            assert(!is_digit(digits[i - start]));
            return None;
        }
        let d: u64 = c as u64 - 48;
        proof {
            assert(digits.take(i - start + 1).drop_last() =~= digits.take(i - start));
            lemma_value_grows(digits, i - start + 1);
        }
        assert(digits_value(digits.take(i - start + 1)) == value * 10 + d);
        if value > (u64::MAX - d) / 10 {
            assert(value * 10 + d > u64::MAX);
            return None;
        }
        let next: u64 = value * 10 + d;
        if next > max {
            return None;
        }
        value = next;
        i = i + 1;
    }
    assert(digits.take(i - start) =~= digits);
    Some(value)
}

/// More digits never stand for less.
proof fn lemma_value_grows(digits: Seq<char>, n: int)
    requires
        0 <= n <= digits.len(),
    ensures
        all_digits(digits) ==> digits_value(digits.take(n)) <= digits_value(digits),
    decreases digits.len() - n,
{
    if n < digits.len() {
        lemma_value_grows(digits, n + 1);
        assert(digits.take(n + 1).drop_last() =~= digits.take(n));
        if all_digits(digits) {
            assert(is_digit(digits[n]));
        }
    } else {
        assert(digits.take(n) =~= digits);
    }
}

/// The string of one digit.
fn digit_str(d: u64) -> (s: &'static str)
    requires
        d < 10,
    ensures
        s@ == seq![digit(d as nat)],
{
    proof {
        reveal_strlit("0");
        reveal_strlit("1");
        reveal_strlit("2");
        reveal_strlit("3");
        reveal_strlit("4");
        reveal_strlit("5");
        reveal_strlit("6");
        reveal_strlit("7");
        reveal_strlit("8");
        reveal_strlit("9");
    }
    let s: &'static str = match d {
        0 => "0",
        1 => "1",
        2 => "2",
        3 => "3",
        4 => "4",
        5 => "5",
        6 => "6",
        7 => "7",
        8 => "8",
        _ => "9",
    };
    assert(s@ =~= seq![digit(d as nat)]);
    s
}

/// Appends a number, filled up with zeros to `width` digits.
pub fn push_padded(out: &mut String, n: u64, width: u32)
    ensures
        final(out)@ == old(out)@ + padded(n as nat, width as nat),
    decreases n, width,
{
    if n >= 10 || width > 1 {
        push_padded(
            out,
            n / 10,
            if width == 0 {
                0
            } else {
                width - 1
            },
        );
    }
    let ghost before = out@;
    out.append(digit_str(n % 10));
    proof {
        let d = digit((n % 10) as nat);
        assert(before + seq![d] =~= before.push(d));
        if n >= 10 || width > 1 {
            let head = padded(
                (n / 10) as nat,
                if width == 0 {
                    0
                } else {
                    (width - 1) as nat
                },
            );
            assert(old(out)@ + head.push(d) =~= (old(out)@ + head).push(d));
        }
    }
}

/// Appends the decimal digits of a number.
pub fn push_decimal(out: &mut String, n: u64)
    ensures
        final(out)@ == old(out)@ + decimal(n as nat),
{
    push_padded(out, n, 0);
}

/// Whether two texts are the same.
pub fn same_text(a: &str, b: &str) -> (same: bool)
    ensures
        same == (a@ == b@),
{
    let left = chars_of(a);
    let right = chars_of(b);
    let n: usize = left.len();
    if n != right.len() {
        return false;
    }
    let mut i: usize = 0;
    while i < n
        invariant
            i <= n,
            n == left@.len(),
            n == right@.len(),
            left@ == a@,
            right@ == b@,
            forall|j: int| 0 <= j < i ==> left@[j] == right@[j],
        decreases n - i,
    {
        if left[i] != right[i] {
            assert(a@[i as int] != b@[i as int]);
            return false;
        }
        i = i + 1;
    }
    assert(a@ =~= b@);
    true
}

/// The digits of a number are digits, and stand for the number.
pub proof fn lemma_padded(n: nat, width: nat)
    ensures
        padded(n, width).len() > 0,
        all_digits(padded(n, width)),
        digits_value(padded(n, width)) == n,
    decreases n, width,
{
    if n < 10 && width <= 1 {
        let d = seq![digit(n)];
        assert(d.drop_last() =~= Seq::<char>::empty());
        assert(digits_value(d.drop_last()) == 0);
    } else {
        let less = if width == 0 { 0 } else { (width - 1) as nat };
        lemma_padded(n / 10, less);
        let head = padded(n / 10, less);
        let d = head.push(digit(n % 10));
        assert(d.drop_last() =~= head);
    }
}

/// A number that is written down, with or without zeros in front, is read back.
pub proof fn law_number_round_trip(n: u64, width: nat, max: u64)
    requires
        n <= max,
    ensures
        parsed_number(padded(n as nat, width), max) == Some(n),
{
    lemma_padded(n as nat, width);
    let text = padded(n as nat, width);
    assert(is_digit(text[0]));
}

/// Numbers are read digit by digit. An empty text and a plus sign alone are no
/// number, the first digit stands for itself, each further digit comes behind what has
/// been read so far, and anything else makes the text no number. Nor is anything above
/// `max` a number.
pub proof fn law_numbers_are_read_digit_by_digit(text: Seq<char>, c: char, max: u64)
    ensures
        parsed_number(Seq::empty(), max) is None,
        parsed_number(seq!['+'], max) is None,
        !('0' <= c <= '9') ==> parsed_number(text.push(c), max) is None,
        '0' <= c <= '9' ==> {
            let d = c as int - 48;
            if text.len() == 0 || text == seq!['+'] {
                if d <= max {
                    parsed_number(text.push(c), max) == Some(d as u64)
                } else {
                    parsed_number(text.push(c), max) is None
                }
            } else {
                match parsed_number(text, max) {
                    Some(n) => if n * 10 + d <= max {
                        parsed_number(text.push(c), max) == Some((n * 10 + d) as u64)
                    } else {
                        parsed_number(text.push(c), max) is None
                    },
                    None => parsed_number(text.push(c), max) is None,
                }
            }
        },
{
    let longer = text.push(c);
    let plus = seq!['+'];
    assert(plus.skip(1) =~= Seq::<char>::empty());
    assert(longer[text.len() as int] == c);
    if text.len() == 0 {
        if c == '+' {
            assert(longer =~= plus);
        } else {
            assert(unsigned(longer) == longer);
            assert(longer.drop_last() =~= Seq::<char>::empty());
            assert(digits_value(longer.drop_last()) == 0);
            assert(longer.last() == c);
        }
    } else {
        let digits = unsigned(text);
        let more = unsigned(longer);
        assert(longer[0] == text[0]);
        assert(more =~= digits.push(c));
        assert(more.drop_last() =~= digits);
        assert(more.last() == c);
        assert(more[digits.len() as int] == c);
        if text.len() == 1 && text[0] == '+' {
            assert(text =~= plus);
            assert(digits =~= Seq::<char>::empty());
            assert(digits_value(digits) == 0);
        } else {
            assert(digits.len() > 0) by {
                if text[0] == '+' {
                    assert(text.len() > 1);
                }
            }
            assert(text != plus) by {
                if text == plus {
                    assert(text.len() == 1 && text[0] == '+');
                }
            }
        }
        assert(all_digits(more) <==> all_digits(digits) && is_digit(c)) by {
            if all_digits(more) {
                assert forall|i: int| 0 <= i < digits.len() implies is_digit(
                    #[trigger] digits[i],
                ) by {
                    assert(is_digit(more[i]));
                }
                assert(is_digit(more[digits.len() as int]));
            }
            if all_digits(digits) && is_digit(c) {
                assert forall|i: int| 0 <= i < more.len() implies is_digit(#[trigger] more[i]) by {
                    if i < digits.len() {
                        assert(more[i] == digits[i]);
                    }
                }
            }
        }
        assert('0' <= c <= '9' ==> digits_value(more) == digits_value(digits) * 10 + (c as int
            - 48));
    }
}

/// A number is written with the digits that it is read back from, without zeros in
/// front, except those that are needed to fill up the width.
pub proof fn law_numbers_are_written_in_full(n: u64, width: nat)
    ensures
        parsed_number(padded(n as nat, width), u64::MAX) == Some(n),
        forall|i: int|
            0 <= i < padded(n as nat, width).len() ==> '0' <= (#[trigger] padded(
                n as nat,
                width,
            )[i]) <= '9',
        padded(n as nat, width).len() >= width,
        padded(n as nat, width).len() >= 1,
        padded(n as nat, width).len() > width && padded(n as nat, width).len() > 1 ==> padded(
            n as nat,
            width,
        )[0] != '0',
        decimal(n as nat) == padded(n as nat, 0),
{
    law_number_round_trip(n, width, u64::MAX);
    lemma_padded(n as nat, width);
    lemma_padded_len(n as nat, width);
}

proof fn lemma_padded_len(n: nat, width: nat)
    ensures
        padded(n, width).len() >= width,
        padded(n, width).len() >= 1,
        padded(n, width).len() > width && padded(n, width).len() > 1 ==> padded(n, width)[0] != '0',
        n > 0 && width <= 1 ==> padded(n, width)[0] != '0',
    decreases n, width,
{
    if n < 10 && width <= 1 {
    } else {
        let less = if width == 0 { 0 } else { (width - 1) as nat };
        lemma_padded_len(n / 10, less);
        lemma_padded(n / 10, less);
        let head = padded(n / 10, less);
        assert(padded(n, width)[0] == head[0]);
    }
}

} // verus!
