//! Decimal text: canonical rendering of integers, and digit grouping for
//! human-readable counts.
//!
//! Canonical decimal text has no sign for zero, no leading zero, and a
//! single leading `-` for negative values.  The request URLs, the wire
//! codec and the summary all build on these functions.

use vstd::prelude::*;
use vstd::string::*;

verus! {

/// The character of one decimal digit.
pub open spec fn spec_digit_char(d: int) -> char {
    if d == 0 {
        '0'
    } else if d == 1 {
        '1'
    } else if d == 2 {
        '2'
    } else if d == 3 {
        '3'
    } else if d == 4 {
        '4'
    } else if d == 5 {
        '5'
    } else if d == 6 {
        '6'
    } else if d == 7 {
        '7'
    } else if d == 8 {
        '8'
    } else {
        '9'
    }
}

/// Whether a character is a decimal digit.
pub open spec fn spec_is_digit(c: char) -> bool {
    '0' <= c <= '9'
}

/// The numeric value of a digit character.
pub open spec fn spec_digit_val(c: char) -> int {
    if c == '0' {
        0
    } else if c == '1' {
        1
    } else if c == '2' {
        2
    } else if c == '3' {
        3
    } else if c == '4' {
        4
    } else if c == '5' {
        5
    } else if c == '6' {
        6
    } else if c == '7' {
        7
    } else if c == '8' {
        8
    } else {
        9
    }
}

/// The canonical decimal digits of a non-negative number, most
/// significant first.
pub open spec fn spec_dec_digits(n: int) -> Seq<char>
    decreases n,
        when n >= 0
{
    if n < 10 {
        seq![spec_digit_char(n)]
    } else {
        spec_dec_digits(n / 10) + seq![spec_digit_char(n % 10)]
    }
}

/// The canonical decimal text of an integer: the digits of its
/// magnitude, preceded by `-` when it is negative.
pub open spec fn spec_int_text(n: int) -> Seq<char> {
    if n >= 0 {
        spec_dec_digits(n)
    } else {
        seq!['-'] + spec_dec_digits(-n)
    }
}

/// Every rendered digit is a digit character, and its value is the one
/// rendered; the first digit is `0` only for the number zero.
pub proof fn lemma_dec_digits_shape(n: int)
    requires
        n >= 0,
    ensures
        spec_dec_digits(n).len() >= 1,
        forall|i: int|
            0 <= i < spec_dec_digits(n).len() ==> spec_is_digit(#[trigger] spec_dec_digits(n)[i]),
        spec_dec_digits(n)[0] == '0' ==> n == 0,
    decreases n,
{
    if n >= 10 {
        lemma_dec_digits_shape(n / 10);
        let s = spec_dec_digits(n);
        let head = spec_dec_digits(n / 10);
        assert(s == head + seq![spec_digit_char(n % 10)]);
        assert(s[0] == head[0]);
        assert forall|i: int| 0 <= i < s.len() implies spec_is_digit(#[trigger] s[i]) by {
            if i < head.len() {
                assert(s[i] == head[i]);
            }
        }
    }
}

/// Decimal digit text is ASCII.
pub proof fn lemma_digits_ascii(n: int)
    requires
        n >= 0,
    ensures
        vstd::utf8::is_ascii_chars(spec_dec_digits(n)),
{
    lemma_dec_digits_shape(n);
    let s = spec_dec_digits(n);
    assert forall|i: int| 0 <= i < s.len() implies '\0' <= #[trigger] s[i] <= '\u{7f}' by {
        assert(spec_is_digit(s[i]));
    }
}

/// A one-character string for each decimal digit.
fn digit_str(d: u64) -> (r: &'static str)
    requires
        d < 10,
    ensures
        r@ =~= seq![spec_digit_char(d as int)],
{
    proof {
        reveal_strlit("0");
        reveal_strlit("1");
        reveal_strlit("2");
        reveal_strlit("3");
        reveal_strlit("4");
        reveal_strlit("5");
        reveal_strlit("6");
        reveal_strlit("7");
        reveal_strlit("8");
        reveal_strlit("9");
    }
    if d == 0 {
        "0"
    } else if d == 1 {
        "1"
    } else if d == 2 {
        "2"
    } else if d == 3 {
        "3"
    } else if d == 4 {
        "4"
    } else if d == 5 {
        "5"
    } else if d == 6 {
        "6"
    } else if d == 7 {
        "7"
    } else if d == 8 {
        "8"
    } else {
        "9"
    }
}

/// Renders a non-negative number as canonical decimal text.
pub fn u64_string(n: u64) -> (r: String)
    ensures
        r@ == spec_dec_digits(n as int),
    decreases n,
{
    if n < 10 {
        let mut s = String::new();
        s.append(digit_str(n));
        proof {
            assert(s@ =~= seq![spec_digit_char(n as int)]);
        }
        s
    } else {
        let mut s = u64_string(n / 10);
        s.append(digit_str(n % 10));
        proof {
            assert(s@ =~= spec_dec_digits(n as int / 10) + seq![spec_digit_char(n as int % 10)]);
        }
        s
    }
}

/// Renders a signed number as canonical decimal text.
pub fn i64_string(n: i64) -> (r: String)
    ensures
        r@ == spec_int_text(n as int),
{
    proof {
        reveal_strlit("-");
    }
    if n >= 0 {
        let r = u64_string(n as u64);
        r
    } else {
        let magnitude: u64 = if n == i64::MIN {
            9223372036854775808u64
        } else {
            (-n) as u64
        };
        let mut s = String::new();
        s.append("-");
        let digits = u64_string(magnitude);
        s.append(digits.as_str());
        proof {
            assert(s@ =~= seq!['-'] + spec_dec_digits(-(n as int)));
        }
        s
    }
}

/// Digit text regrouped with a separator before every trailing block of
/// three digits.
pub open spec fn spec_grouped(digits: Seq<char>, sep: Seq<char>) -> Seq<char>
    decreases digits.len(),
{
    if digits.len() <= 3 {
        digits
    } else {
        spec_grouped(digits.take(digits.len() - 3), sep) + sep + digits.skip(digits.len() - 3)
    }
}

/// The text `separator` returns: the magnitude's digits grouped by
/// thousands, with the sign back in front for a negative number.
pub open spec fn spec_separated(n: int, sep: Seq<char>) -> Seq<char> {
    if n >= 0 {
        spec_grouped(spec_dec_digits(n), sep)
    } else {
        seq!['-'] + spec_grouped(spec_dec_digits(-n), sep)
    }
}

/// Regroups ASCII text with `sep` before every trailing block of three
/// characters.
fn grouped(digits: &str, sep: &str) -> (r: String)
    requires
        digits.is_ascii(),
    ensures
        r@ == spec_grouped(digits@, sep@),
    decreases digits@.len(),
{
    let len = digits.unicode_len();
    if len <= 3 {
        String::from_str(digits)
    } else {
        let head = digits.substring_ascii(0, len - 3);
        let tail = digits.substring_ascii(len - 3, len);
        let mut s = grouped(head, sep);
        s.append(sep);
        s.append(tail);
        proof {
            assert(head@ =~= digits@.take(digits@.len() - 3));
            assert(tail@ =~= digits@.skip(digits@.len() - 3));
            assert(s@ =~= spec_grouped(digits@.take(digits@.len() - 3), sep@) + sep@
                + digits@.skip(digits@.len() - 3));
        }
        s
    }
}

/// Renders a number with `sep` inserted between digit groups of three,
/// e.g. `1_234_567`.
pub fn separator(n: i64, sep: &str) -> (r: String)
    ensures
        r@ == spec_separated(n as int, sep@),
{
    proof {
        reveal_strlit("-");
    }
    if n >= 0 {
        let digits = u64_string(n as u64);
        proof {
            lemma_digits_ascii(n as int);
        }
        grouped(digits.as_str(), sep)
    } else {
        let magnitude: u64 = if n == i64::MIN {
            9223372036854775808u64
        } else {
            (-n) as u64
        };
        let digits = u64_string(magnitude);
        proof {
            lemma_digits_ascii(magnitude as int);
        }
        let mut s = String::new();
        s.append("-");
        let tail = grouped(digits.as_str(), sep);
        s.append(tail.as_str());
        proof {
            assert(s@ =~= seq!['-'] + spec_grouped(spec_dec_digits(-(n as int)), sep@));
        }
        s
    }
}

} // verus!
