//! Characters and strings: the few calls into std that the schematic needs,
//! and decimal formatting of integers.

use vstd::prelude::*;

verus! {

/// Whether `c` belongs to one of Unicode's numeric general categories
/// (Nd, Nl, No): the result of `char::is_numeric`.
pub uninterp spec fn is_numeric_char(c: char) -> bool;

/// Calls `char::is_numeric`.  The contract names its result
/// `is_numeric_char(c)`, and states what it is on ASCII: among the ASCII
/// characters only the digits `0`-`9` have a numeric general category (Nd),
/// and std's implementation answers `'0'..='9' => true` and `false` for any
/// other character up to `'\x7f'`.  Which characters beyond ASCII are
/// numeric is Unicode's table, which is not restated here.
#[verifier::external_body]
pub(crate) fn char_is_numeric(c: char) -> (b: bool)
    ensures
        b == is_numeric_char(c),
        (c as u32) < 128 ==> (b <==> is_ascii_digit(c)),
{
    c.is_numeric()
}

/// What `char::is_numeric` gives for `c`: on ASCII, whether `c` is a digit;
/// beyond it, what Unicode's table says (`is_numeric_char`).
pub open spec fn numeric_char(c: char) -> bool {
    if (c as u32) < 128 {
        is_ascii_digit(c)
    } else {
        is_numeric_char(c)
    }
}

/// A cell of one ASCII character.
pub open spec fn ascii_cell(s: Seq<char>) -> bool {
    s.len() == 1 && (s[0] as u32) < 128
}

/// Calls `String::from` on a character: a string that holds just `c`.
#[verifier::external_body]
pub(crate) fn char_to_string(c: char) -> (s: String)
    ensures
        s@ == seq![c],
{
    String::from(c)
}

/// The character of a decimal digit `0..=9`.
pub open spec fn digit_char(d: int) -> char {
    if d == 0 { '0' }
    else if d == 1 { '1' }
    else if d == 2 { '2' }
    else if d == 3 { '3' }
    else if d == 4 { '4' }
    else if d == 5 { '5' }
    else if d == 6 { '6' }
    else if d == 7 { '7' }
    else if d == 8 { '8' }
    else { '9' }
}

/// The decimal digits of a natural number, most significant first, with no
/// leading zero (zero itself is `"0"`).
pub open spec fn natural_digits(n: nat) -> Seq<char>
    decreases n,
{
    if n < 10 {
        seq![digit_char(n as int)]
    } else {
        natural_digits(n / 10).push(digit_char((n % 10) as int))
    }
}

/// The decimal text of an integer as Rust's `Display` writes it: a minus sign
/// for a negative value, then the digits.
pub open spec fn decimal(v: int) -> Seq<char> {
    if v < 0 {
        seq!['-'] + natural_digits((-v) as nat)
    } else {
        natural_digits(v as nat)
    }
}

fn digit_to_char(d: u64) -> (c: char)
    requires
        d < 10,
    ensures
        c == digit_char(d as int),
{
    match d {
        0 => '0',
        1 => '1',
        2 => '2',
        3 => '3',
        4 => '4',
        5 => '5',
        6 => '6',
        7 => '7',
        8 => '8',
        _ => '9',
    }
}

fn push_natural(s: &mut String, n: u64)
    ensures
        final(s)@ == old(s)@ + natural_digits(n as nat),
    decreases n,
{
    if n >= 10 {
        push_natural(s, n / 10);
    }
    let d = char_to_string(digit_to_char(n % 10));
    s.append(d.as_str());
    proof {
        assert((n as nat) % 10 == (n % 10) as nat);
        assert((n as nat) / 10 == (n / 10) as nat);
    }
}

/// Appends the decimal text of `v` to `s`.
pub fn push_decimal(s: &mut String, v: i64)
    ensures
        final(s)@ == old(s)@ + decimal(v as int),
{
    if v < 0 {
        let minus = char_to_string('-');
        s.append(minus.as_str());
        let m: u64 = if v == i64::MIN { 9223372036854775808u64 } else { (-v) as u64 };
        push_natural(s, m);
    } else {
        push_natural(s, v as u64);
    }
}

/// An ASCII decimal digit.
pub open spec fn is_ascii_digit(c: char) -> bool {
    '0' <= c && c <= '9'
}

/// The value of a non-empty run of ASCII digits, read in base ten.
pub open spec fn digits_value(s: Seq<char>) -> int
    decreases s.len(),
{
    if s.len() == 0 {
        0
    } else {
        digits_value(s.drop_last()) * 10 + (s.last() as int - '0' as int)
    }
}

/// The integer that a text spells in base ten: an optional `+` or `-` sign
/// followed by one or more ASCII digits, and nothing else; `None` for any
/// other text.
pub open spec fn decimal_value(s: Seq<char>) -> Option<int> {
    let signed = s.len() > 0 && (s[0] == '+' || s[0] == '-');
    let body = if signed { s.drop_first() } else { s };
    if body.len() > 0 && (forall|i: int| 0 <= i < body.len() ==> is_ascii_digit(#[trigger] body[i])) {
        Some(if signed && s[0] == '-' { -digits_value(body) } else { digits_value(body) })
    } else {
        None
    }
}

/// What `str::parse::<i32>` gives for a text: its value when the text spells
/// an integer in base ten that fits in an `i32`.
pub open spec fn parsed_i32(s: Seq<char>) -> Option<i32> {
    match decimal_value(s) {
        Some(v) => if i32::MIN <= v <= i32::MAX { Some(v as i32) } else { None },
        None => None,
    }
}

/// What `str::parse::<i64>` gives for a text: its value when the text spells
/// an integer in base ten that fits in an `i64`.
pub open spec fn parsed_i64(s: Seq<char>) -> Option<i64> {
    match decimal_value(s) {
        Some(v) => if i64::MIN <= v <= i64::MAX { Some(v as i64) } else { None },
        None => None,
    }
}

/// Calls `str::parse::<i32>` and keeps the value, dropping the error.  As
/// `i32::from_str_radix` documents it, the text must be an optional `+` or
/// `-` followed by one or more digits `0`-`9` and nothing else, and the value
/// must fit in an `i32`; the result is then that value.
#[verifier::external_body]
pub(crate) fn parse_i32(s: &str) -> (res: Option<i32>)
    ensures
        res == parsed_i32(s@),
{
    s.parse::<i32>().ok()
}

/// Calls `str::parse::<i64>` and keeps the value, dropping the error.  As
/// `i64::from_str_radix` documents it, the text must be an optional `+` or
/// `-` followed by one or more digits `0`-`9` and nothing else, and the value
/// must fit in an `i64`; the result is then that value.
#[verifier::external_body]
pub(crate) fn parse_i64(s: &str) -> (res: Option<i64>)
    ensures
        res == parsed_i64(s@),
{
    s.parse::<i64>().ok()
}

/// Whether some character of `s` is numeric.
pub open spec fn has_numeric(s: Seq<char>) -> bool {
    exists|i: int| 0 <= i < s.len() && numeric_char(#[trigger] s[i])
}

/// Whether some character of `s` is not numeric.
pub open spec fn has_non_numeric(s: Seq<char>) -> bool {
    exists|i: int| 0 <= i < s.len() && !numeric_char(#[trigger] s[i])
}

/// Whether some character of `s` is numeric, as `s.chars().any(char::is_numeric)`.
pub fn text_has_numeric(s: &str) -> (b: bool)
    ensures
        b == has_numeric(s@),
{
    for ch in it: s.chars()
        invariant
            it.seq() == s@,
            forall|i: int| 0 <= i < it.index() ==> !numeric_char(#[trigger] s@[i]),
    {
        if char_is_numeric(ch) {
            assert(numeric_char(s@[it.index()]));
            return true;
        }
    }
    false
}

/// Whether some character of `s` is not numeric, as
/// `s.chars().any(|c| !c.is_numeric())`.
pub fn text_has_non_numeric(s: &str) -> (b: bool)
    ensures
        b == has_non_numeric(s@),
{
    for ch in it: s.chars()
        invariant
            it.seq() == s@,
            forall|i: int| 0 <= i < it.index() ==> numeric_char(#[trigger] s@[i]),
    {
        if !char_is_numeric(ch) {
            assert(!numeric_char(s@[it.index()]));
            return true;
        }
    }
    false
}

} // verus!
