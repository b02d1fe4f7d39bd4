//! Character classes and the trimming of text, over the characters of a string.

use vstd::prelude::*;
use vstd::string::StringExecFns;

verus! {

/// The characters with the Unicode property `White_Space`.
pub open spec fn is_white_space(c: char) -> bool {
    ||| '\u{9}' <= c <= '\u{d}'
    ||| c == ' '
    ||| c == '\u{85}'
    ||| c == '\u{a0}'
    ||| c == '\u{1680}'
    ||| '\u{2000}' <= c <= '\u{200a}'
    ||| c == '\u{2028}'
    ||| c == '\u{2029}'
    ||| c == '\u{202f}'
    ||| c == '\u{205f}'
    ||| c == '\u{3000}'
}

/// The control characters: Unicode general category `Cc`.
pub open spec fn is_control(c: char) -> bool {
    c <= '\u{1f}' || '\u{7f}' <= c <= '\u{9f}'
}

/// Whether `c` has the Unicode property `White_Space`.
pub fn white_space(c: char) -> (result: bool)
    ensures
        result == is_white_space(c),
{
    ('\u{9}' <= c && c <= '\u{d}') || c == ' ' || c == '\u{85}' || c == '\u{a0}' || c == '\u{1680}'
        || ('\u{2000}' <= c && c <= '\u{200a}') || c == '\u{2028}' || c == '\u{2029}' || c
        == '\u{202f}' || c == '\u{205f}' || c == '\u{3000}'
}

/// Whether `c` is a control character.
pub fn control(c: char) -> (result: bool)
    ensures
        result == is_control(c),
{
    c <= '\u{1f}' || ('\u{7f}' <= c && c <= '\u{9f}')
}

/// The characters of `text`.
pub fn char_vec(text: &str) -> (chars: Vec<char>)
    ensures
        chars@ == text@,
{
    let mut chars: Vec<char> = Vec::new();
    for c in iter: text.chars()
        invariant
            chars@ == text@.take(iter.index() as int),
            iter.seq() == text@,
    {
        chars.push(c);
        assert(text@.take(iter.index() as int + 1) =~= text@.take(iter.index() as int).push(c));
    }
    assert(text@.take(text@.len() as int) =~= text@);
    chars
}

// ---------------------------------------------------------------- trimming
/// `s` without the white space at its two ends.
pub open spec fn trimmed(s: Seq<char>) -> Seq<char>
    decreases s.len(),
{
    if s.len() > 0 && is_white_space(s[0]) {
        trimmed(s.drop_first())
    } else if s.len() > 0 && is_white_space(s.last()) {
        trimmed(s.drop_last())
    } else {
        s
    }
}

/// Trimming leaves exactly the texts alone that neither begin nor end with
/// white space.
pub proof fn lemma_trimmed_fixed(s: Seq<char>)
    ensures
        trimmed(s) == s <==> s.len() == 0 || !is_white_space(s[0]) && !is_white_space(s.last()),
        trimmed(s).len() <= s.len(),
    decreases s.len(),
{
    if s.len() > 0 && is_white_space(s[0]) {
        lemma_trimmed_fixed(s.drop_first());
    } else if s.len() > 0 && is_white_space(s.last()) {
        lemma_trimmed_fixed(s.drop_last());
    }
}

/// Trims `chars` at both ends.
pub fn trim_chars(chars: &Vec<char>) -> (result: Vec<char>)
    ensures
        result@ == trimmed(chars@),
{
    let mut start: usize = 0;
    let mut end: usize = chars.len();
    assert(chars@.subrange(0, end as int) =~= chars@);
    while start < end && white_space(chars[start])
        invariant
            start <= end == chars@.len(),
            trimmed(chars@.subrange(start as int, end as int)) == trimmed(chars@),
        decreases end - start,
    {
        assert(chars@.subrange(start as int, end as int).drop_first() =~= chars@.subrange(
            start as int + 1,
            end as int,
        ));
        start = start + 1;
    }
    while start < end && white_space(chars[end - 1])
        invariant
            start <= end <= chars@.len(),
            start < end ==> !is_white_space(chars@[start as int]),
            trimmed(chars@.subrange(start as int, end as int)) == trimmed(chars@),
        decreases end - start,
    {
        assert(chars@.subrange(start as int, end as int).drop_last() =~= chars@.subrange(
            start as int,
            end as int - 1,
        ));
        end = end - 1;
    }
    let mut result: Vec<char> = Vec::new();
    let mut at: usize = start;
    while at < end
        invariant
            start <= at <= end <= chars@.len(),
            result@ == chars@.subrange(start as int, at as int),
        decreases end - at,
    {
        result.push(chars[at]);
        assert(chars@.subrange(start as int, at as int + 1) =~= chars@.subrange(
            start as int,
            at as int,
        ).push(chars@[at as int]));
        at = at + 1;
    }
    result
}

/// Whether nothing but white space is in `text`.
pub fn is_blank(text: &str) -> (result: bool)
    ensures
        result == (trimmed(text@).len() == 0),
{
    let chars: Vec<char> = char_vec(text);
    trim_chars(&chars).len() == 0
}

// ---------------------------------------------------------------- decimals
/// The number that a digit stands for.
pub open spec fn digit_value(c: char) -> nat {
    (c as nat - '0' as nat) as nat
}

/// The decimal digits.
pub open spec fn is_digit(c: char) -> bool {
    '0' <= c <= '9'
}

/// The number that a row of decimal digits stands for.
pub open spec fn decimal_value(s: Seq<char>) -> nat
    decreases s.len(),
{
    if s.len() == 0 {
        0
    } else {
        10 * decimal_value(s.drop_last()) + digit_value(s.last())
    }
}

/// The digits of a number: everything but an optional plus sign in front.
pub open spec fn decimal_digits(s: Seq<char>) -> Seq<char> {
    if s.len() > 0 && s[0] == '+' {
        s.drop_first()
    } else {
        s
    }
}

/// What `s` says as an unsigned decimal number of at most `max`: an optional
/// plus sign, then at least one digit, and digits only.
pub open spec fn parsed_decimal(s: Seq<char>, max: nat) -> Option<nat> {
    let digits = decimal_digits(s);
    if digits.len() > 0 && (forall|i: int| 0 <= i < digits.len() ==> is_digit(#[trigger] digits[i]))
        && decimal_value(digits) <= max {
        Some(decimal_value(digits))
    } else {
        None
    }
}

proof fn lemma_decimal_value_grows(s: Seq<char>, n: int)
    requires
        0 <= n <= s.len(),
    ensures
        decimal_value(s.take(n)) <= decimal_value(s),
    decreases s.len() - n,
{
    if n < s.len() {
        lemma_decimal_value_grows(s, n + 1);
        assert(s.take(n + 1).drop_last() =~= s.take(n));
    } else {
        assert(s.take(n) =~= s);
    }
}

/// Reads an unsigned decimal number.
pub fn parse_decimal(chars: &Vec<char>) -> (result: Option<u64>)
    ensures
        match result {
            Some(value) => parsed_decimal(chars@, u64::MAX as nat) == Some(value as nat),
            None => parsed_decimal(chars@, u64::MAX as nat) is None,
        },
{
    let start: usize = if chars.len() > 0 && chars[0] == '+' {
        1
    } else {
        0
    };
    let ghost digits = decimal_digits(chars@);
    assert(digits =~= chars@.skip(start as int));
    if start == chars.len() {
        return None;
    }
    let mut value: u64 = 0;
    let mut at: usize = start;
    assert(digits.take(0) =~= Seq::empty());
    while at < chars.len()
        invariant
            start <= at <= chars@.len(),
            start <= 1,
            digits == chars@.skip(start as int),
            digits == decimal_digits(chars@),
            value as nat == decimal_value(digits.take(at - start)),
            forall|i: int| 0 <= i < at - start ==> is_digit(#[trigger] digits[i]),
        decreases chars@.len() - at,
    {
        let c: char = chars[at];
        assert(c == digits[at - start]);
        if !('0' <= c && c <= '9') {
            assert(!is_digit(digits[at - start]));
            return None;
        }
        let digit: u64 = (c as u32 - '0' as u32) as u64;
        proof {
            assert(digits.take(at - start + 1).drop_last() =~= digits.take(at - start));
            assert(digits.take(at - start + 1).last() == c);
            lemma_decimal_value_grows(digits, at - start + 1);
        }
        if value > u64::MAX / 10 || value * 10 > u64::MAX - digit {
            return None;
        }
        value = value * 10 + digit;
        at = at + 1;
    }
    assert(digits.take(digits.len() as int) =~= digits);
    Some(value)
}

/// The decimal digits of `n`.
pub open spec fn decimal_text(n: nat) -> Seq<char>
    decreases n,
{
    if n < 10 {
        seq![digit_char(n)]
    } else {
        decimal_text(n / 10).push(digit_char(n % 10))
    }
}

/// The digit that stands for `d`.
pub open spec fn digit_char(d: nat) -> char {
    (d + '0' as nat) as char
}

fn digit_str(d: u64) -> (text: &'static str)
    requires
        d < 10,
    ensures
        text@ == seq![digit_char(d as nat)],
{
    proof {
        reveal_strlit("0");
        reveal_strlit("1");
        reveal_strlit("2");
        reveal_strlit("3");
        reveal_strlit("4");
        reveal_strlit("5");
        reveal_strlit("6");
        reveal_strlit("7");
        reveal_strlit("8");
        reveal_strlit("9");
    }
    let text: &'static str = match d {
        0 => "0",
        1 => "1",
        2 => "2",
        3 => "3",
        4 => "4",
        5 => "5",
        6 => "6",
        7 => "7",
        8 => "8",
        _ => "9",
    };
    assert(text@ =~= seq![digit_char(d as nat)]);
    text
}

/// Appends `n` in decimal.
pub fn append_decimal(out: &mut String, n: u64)
    ensures
        final(out)@ == old(out)@ + decimal_text(n as nat),
    decreases n,
{
    if n >= 10 {
        append_decimal(out, n / 10);
    }
    out.append(digit_str(n % 10));
    assert(out@ =~= old(out)@ + decimal_text(n as nat));
}

/// What `s` says as a signed decimal number: an optional sign, then at least one
/// digit, and digits only.
pub open spec fn parsed_signed(s: Seq<char>) -> Option<int> {
    if s.len() > 0 && s[0] == '-' {
        let digits = s.drop_first();
        if digits.len() > 0 && digits[0] == '+' {
            None
        } else {
            match parsed_decimal(digits, 0x8000_0000_0000_0000) {
                Some(value) => Some(-(value as int)),
                None => None,
            }
        }
    } else {
        match parsed_decimal(s, i64::MAX as nat) {
            Some(value) => Some(value as int),
            None => None,
        }
    }
}

/// Reads a signed decimal number.
pub fn parse_signed(chars: &Vec<char>) -> (result: Option<i64>)
    ensures
        match result {
            Some(value) => parsed_signed(chars@) == Some(value as int),
            None => parsed_signed(chars@) is None,
        },
{
    if chars.len() > 0 && chars[0] == '-' {
        let mut digits: Vec<char> = Vec::new();
        let mut at: usize = 1;
        while at < chars.len()
            invariant
                1 <= at <= chars@.len(),
                digits@ == chars@.subrange(1, at as int),
            decreases chars@.len() - at,
        {
            digits.push(chars[at]);
            at = at + 1;
            assert(digits@ =~= chars@.subrange(1, at as int));
        }
        assert(digits@ =~= chars@.drop_first());
        if digits.len() > 0 && digits[0] == '+' {
            return None;
        }
        match parse_decimal(&digits) {
            Some(value) => if value < 0x8000_0000_0000_0000 {
                Some(-(value as i64))
            } else if value == 0x8000_0000_0000_0000 {
                Some(i64::MIN)
            } else {
                None
            },
            None => None,
        }
    } else {
        match parse_decimal(chars) {
            Some(value) => if value <= i64::MAX as u64 {
                Some(value as i64)
            } else {
                None
            },
            None => None,
        }
    }
}

/// What is written in decimal reads back as the same number.
pub proof fn law_decimal_round_trip(n: u64)
    ensures
        parsed_decimal(decimal_text(n as nat), u64::MAX as nat) == Some(n as nat),
{
    lemma_decimal_text(n as nat);
}

proof fn lemma_decimal_text(n: nat)
    ensures
        decimal_text(n).len() > 0,
        decimal_value(decimal_text(n)) == n,
        forall|i: int| 0 <= i < decimal_text(n).len() ==> is_digit(#[trigger] decimal_text(n)[i]),
    decreases n,
{
    let last = digit_char(n % 10);
    assert(is_digit(last) && digit_value(last) == n % 10);
    if n < 10 {
        assert(decimal_text(n).drop_last() =~= Seq::empty());
        assert(decimal_value(Seq::<char>::empty()) == 0);
    } else {
        lemma_decimal_text(n / 10);
        assert(decimal_text(n).drop_last() =~= decimal_text(n / 10));
    }
}

/// Trimming takes white space from the two ends of a text, all of it and nothing else:
/// what is left stands between the two places.
pub proof fn law_trimming_takes_white_space_from_the_ends(s: Seq<char>) -> (ends: (int, int))
    ensures
        0 <= ends.0 <= ends.1 <= s.len(),
        trimmed(s) == s.subrange(ends.0, ends.1),
        forall|i: int| 0 <= i < ends.0 ==> is_white_space(#[trigger] s[i]),
        forall|i: int| ends.1 <= i < s.len() ==> is_white_space(#[trigger] s[i]),
        ends.0 < ends.1 ==> !is_white_space(s[ends.0]) && !is_white_space(s[ends.1 - 1]),
    decreases s.len(),
{
    if s.len() > 0 && is_white_space(s[0]) {
        let rest = s.drop_first();
        let (from, to) = law_trimming_takes_white_space_from_the_ends(rest);
        assert(rest.subrange(from, to) =~= s.subrange(from + 1, to + 1));
        assert forall|i: int| 0 <= i < from + 1 implies is_white_space(#[trigger] s[i]) by {
            if i > 0 {
                assert(rest[i - 1] == s[i]);
            }
        }
        assert forall|i: int| to + 1 <= i < s.len() implies is_white_space(#[trigger] s[i]) by {
            assert(rest[i - 1] == s[i]);
        }
        (from + 1, to + 1)
    } else if s.len() > 0 && is_white_space(s.last()) {
        let rest = s.drop_last();
        let (from, to) = law_trimming_takes_white_space_from_the_ends(rest);
        assert(rest.subrange(from, to) =~= s.subrange(from, to));
        assert forall|i: int| 0 <= i < from implies is_white_space(#[trigger] s[i]) by {
            assert(rest[i] == s[i]);
        }
        assert forall|i: int| to <= i < s.len() implies is_white_space(#[trigger] s[i]) by {
            if i < s.len() - 1 {
                assert(rest[i] == s[i]);
            }
        }
        (from, to)
    } else {
        assert(s.subrange(0, s.len() as int) =~= s);
        (0, s.len() as int)
    }
}

/// A row of digits is read from the left, each digit counting ten times less than the
/// one before it.
pub proof fn law_decimal_digits_count(s: Seq<char>, c: char)
    requires
        '0' <= c <= '9',
    ensures
        decimal_value(Seq::empty()) == 0,
        decimal_value(s.push(c)) == 10 * decimal_value(s) + (c as int - 0x30),
        is_digit(c),
{
    assert(s.push(c).drop_last() =~= s);
}

/// A text is a number exactly where it holds digits, at least one, and nothing else
/// but perhaps a plus sign in front, and the number is not beyond the limit.
pub proof fn law_number_is_digits(s: Seq<char>, max: nat)
    ensures
        ({
            let digits = |t: Seq<char>|
                t.len() > 0 && (forall|i: int| 0 <= i < t.len() ==> '0' <= #[trigger] t[i] <= '9');
            &&& digits(s) && decimal_value(s) <= max ==> parsed_decimal(s, max) == Some(
                decimal_value(s),
            )
            &&& digits(s) && decimal_value(s) <= max ==> parsed_decimal(seq!['+'] + s, max) == Some(
                decimal_value(s),
            )
            &&& parsed_decimal(s, max) is Some ==> digits(s) || s.len() > 1 && s[0] == '+' && digits(
                s.skip(1),
            )
            &&& parsed_decimal(s, max) matches Some(value) ==> value <= max
        }),
{
    let signed = seq!['+'] + s;
    assert(signed.drop_first() =~= s);
    assert(signed[0] == '+');
    if s.len() > 0 {
        assert(s.drop_first() =~= s.skip(1));
    }
    let digits = decimal_digits(s);
    if parsed_decimal(s, max) is Some {
        assert forall|i: int| 0 <= i < digits.len() implies '0' <= #[trigger] digits[i] <= '9' by {
            assert(is_digit(digits[i]));
        }
    }
    if s.len() > 0 && (forall|i: int| 0 <= i < s.len() ==> '0' <= #[trigger] s[i] <= '9') {
        assert('0' <= s[0] <= '9');
        assert(decimal_digits(s) == s);
        assert(decimal_digits(signed) == s);
        assert forall|i: int| 0 <= i < s.len() implies is_digit(#[trigger] s[i]) by {}
    }
}

/// A number is written with digits alone, and without a zero in front unless it is
/// zero; the digits stand for the number.
pub proof fn law_decimal_text_is_the_number(n: nat)
    ensures
        decimal_text(n).len() > 0,
        decimal_value(decimal_text(n)) == n,
        forall|i: int|
            0 <= i < decimal_text(n).len() ==> '0' <= #[trigger] decimal_text(n)[i] <= '9',
        n > 0 ==> decimal_text(n)[0] != '0',
        n == 0 ==> decimal_text(n) == seq!['0'],
    decreases n,
{
    lemma_decimal_text(n);
    assert forall|i: int| 0 <= i < decimal_text(n).len() implies '0' <= #[trigger] decimal_text(n)[i]
        <= '9' by {
        assert(is_digit(decimal_text(n)[i]));
    }
    if n >= 10 {
        law_decimal_text_is_the_number(n / 10);
    }
}

/// A signed number is an unsigned one, or a minus sign and digits: then it is the
/// number that they stand for, below zero. Numbers outside the 64-bit range are none.
pub proof fn law_signed_number_has_a_sign(s: Seq<char>)
    ensures
        s.len() == 0 || s[0] != '-' ==> match parsed_decimal(s, 0x7fff_ffff_ffff_ffff) {
            Some(value) => parsed_signed(s) == Some(value as int),
            None => parsed_signed(s) is None,
        },
        s.len() > 0 && s[0] != '+' ==> match parsed_decimal(s, 0x8000_0000_0000_0000) {
            Some(value) => parsed_signed(seq!['-'] + s) == Some(0 - value),
            None => parsed_signed(seq!['-'] + s) is None,
        },
        s.len() == 0 || s[0] == '+' ==> parsed_signed(seq!['-'] + s) is None,
{
    let negative = seq!['-'] + s;
    assert(negative.drop_first() =~= s);
    assert(negative[0] == '-');
}

} // verus!
