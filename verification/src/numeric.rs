//! Conversions between numbers and text, and of integers to doubles, that
//! the standard library and `serde_json` perform. Doubles never appear as
//! such here: a double is carried by its IEEE-754 bit pattern.
use vstd::prelude::*;
use crate::json::{Number, NumV};

verus! {

/// `s` is a non-empty run of ASCII digits.
pub open spec fn is_digits(s: Seq<char>) -> bool {
    s.len() > 0 && forall|i: int| 0 <= i < s.len() ==> '0' <= #[trigger] s[i] <= '9'
}

/// `s` starts with a digit and holds only digits and dots.
pub open spec fn is_decimal_text(s: Seq<char>) -> bool {
    &&& s.len() > 0
    &&& '0' <= s[0] <= '9'
    &&& forall|i: int| 0 <= i < s.len() ==> ('0' <= #[trigger] s[i] <= '9' || s[i] == '.')
}

/// How many dots `s` holds.
pub open spec fn dot_count(s: Seq<char>) -> nat
    decreases s.len(),
{
    if s.len() == 0 {
        0
    } else {
        dot_count(s.drop_last()) + if s.last() == '.' { 1nat } else { 0nat }
    }
}

/// The value of a run of decimal digits.
pub open spec fn digits_value(s: Seq<char>) -> nat
    decreases s.len(),
{
    if s.len() == 0 {
        0
    } else {
        digits_value(s.drop_last()) * 10 + ((s.last() as int) - ('0' as int)) as nat
    }
}

/// What `str::parse::<i64>` gives for `s`: the value, or the `Debug` text of the error.
pub uninterp spec fn i64_from_str(s: Seq<char>) -> Result<i64, Seq<char>>;

/// What `parse_double` hands back for `s`: the bits of the double (none when
/// it is not finite) and its `Display` text, or the `Debug` text of the error.
pub uninterp spec fn double_from_str(s: Seq<char>) -> Result<(Option<u64>, Seq<char>), Seq<char>>;

/// The character of the decimal digit `d`, for `d` below ten.
pub open spec fn digit_char(d: nat) -> char {
    (d + ('0' as nat)) as char
}

/// The decimal digits of `n`, without leading zeros (`0` for zero).
pub open spec fn nat_text(n: nat) -> Seq<char>
    decreases n,
{
    if n < 10 {
        seq![digit_char(n)]
    } else {
        nat_text(n / 10).push(digit_char(n % 10))
    }
}

/// The decimal text of an `i64`: its digits, after a `-` when it is negative.
pub open spec fn i64_text(n: i64) -> Seq<char> {
    if n < 0 {
        seq!['-'] + nat_text((-(n as int)) as nat)
    } else {
        nat_text(n as nat)
    }
}

/// The bits of the double that `serde_json::Number::as_f64` gives for the integer `n`.
pub uninterp spec fn u64_as_f64_bits(n: u64) -> u64;

/// The bits of the double that `serde_json::Number::as_f64` gives for the integer `n`.
pub uninterp spec fn i64_as_f64_bits(n: i64) -> u64;

/// Calls `str::parse::<i64>` on a run of digits. The standard library
/// documents that such text parses to its decimal value when that value fits
/// in an `i64`, and fails otherwise; the `Debug` text of the failure is only named.
#[verifier::external_body]
pub(crate) fn parse_i64(s: &str) -> (r: Result<i64, String>)
    requires
        is_digits(s@),
    ensures
        match r {
            Ok(v) => i64_from_str(s@) == Ok::<i64, Seq<char>>(v) && v == digits_value(s@),
            Err(m) => i64_from_str(s@) == Err::<i64, Seq<char>>(m@) && digits_value(s@) > i64::MAX,
        },
{
    s.parse::<i64>().map_err(|e| format!("{:?}", e))
}

/// Calls `str::parse` for a double on text made of digits and dots that
/// starts with a digit. On success it hands back the bits of the double when
/// `serde_json::Number::from_f64` accepts it (it refuses a non-finite double)
/// and the double's `Display` text. By the grammar that the standard library
/// documents (`Digit+ '.' Digit*`), such text parses exactly when it holds at
/// most one dot. Bits and texts are only named.
#[verifier::external_body]
pub(crate) fn parse_double(s: &str) -> (r: Result<(Option<u64>, String), String>)
    requires
        is_decimal_text(s@),
    ensures
        match r {
            Ok((b, t)) => double_from_str(s@) == Ok::<(Option<u64>, Seq<char>), Seq<char>>((b, t@))
                && dot_count(s@) <= 1,
            Err(m) => double_from_str(s@) == Err::<(Option<u64>, Seq<char>), Seq<char>>(m@)
                && dot_count(s@) > 1,
        },
{
    match s.parse() {
        Ok(v) => Ok((
            serde_json::Number::from_f64(v).map(|_| v.to_bits()),
            format!("{}", v),
        )),
        Err(e) => Err(format!("{:?}", e)),
    }
}

/// The character of the decimal digit `d`, for `d` below ten.
fn digit_char_exec(d: u64) -> (c: char)
    requires
        d < 10,
    ensures
        c == digit_char(d as nat),
{
    match d {
        0 => '0',
        1 => '1',
        2 => '2',
        3 => '3',
        4 => '4',
        5 => '5',
        6 => '6',
        7 => '7',
        8 => '8',
        _ => '9',
    }
}

/// Adds the decimal digits of `n` to `out`.
fn push_digits(n: u64, out: &mut Vec<char>)
    ensures
        final(out)@ == old(out)@ + nat_text(n as nat),
    decreases n,
{
    if n >= 10 {
        push_digits(n / 10, out);
    }
    let c = digit_char_exec(n % 10);
    out.push(c);
    proof {
        if n >= 10 {
            assert(old(out)@ + nat_text(n as nat) =~= old(out)@ + nat_text((n / 10) as nat) + seq![c]);
        } else {
            assert(old(out)@ + nat_text(n as nat) =~= old(out)@ + seq![c]);
        }
    }
}

/// The decimal text of an `i64`, as its `Display` impl writes it.
pub(crate) fn i64_to_text(n: i64) -> (r: String)
    ensures
        r@ == i64_text(n),
{
    let mut chars: Vec<char> = Vec::new();
    if n < 0 {
        chars.push('-');
        let m: u64 = ((-(n + 1)) as u64) + 1;
        assert(m as int == -(n as int));
        push_digits(m, &mut chars);
        assert(chars@ =~= seq!['-'] + nat_text((-(n as int)) as nat));
    } else {
        push_digits(n as u64, &mut chars);
        assert(chars@ =~= nat_text(n as nat));
    }
    string_of(&chars)
}

/// Calls `serde_json::Number::as_f64` on the number made from the integer
/// `n`; `serde_json` gives a double for every integer. Its bits are only named.
#[verifier::external_body]
pub(crate) fn u64_as_f64(n: u64) -> (r: Option<u64>)
    ensures
        r == Some(u64_as_f64_bits(n)),
{
    serde_json::Number::from(n).as_f64().map(|x| x.to_bits())
}

/// Calls `serde_json::Number::as_f64` on the number made from the integer
/// `n`; `serde_json` gives a double for every integer. Its bits are only named.
#[verifier::external_body]
pub(crate) fn i64_as_f64(n: i64) -> (r: Option<u64>)
    ensures
        r == Some(i64_as_f64_bits(n)),
{
    serde_json::Number::from(n).as_f64().map(|x| x.to_bits())
}

/// What `serde_json` reads from the text of a number, in the form the
/// library keeps numbers in; nothing where the text is not a JSON number.
pub uninterp spec fn number_reread(text: Seq<char>) -> Option<NumV>;

/// Reads a number back from its text with `serde_json::from_str`, as
/// `serde_json` reads a number inside a document: a non-negative integer, a
/// negative integer, or a double with the text that `serde_json` writes for
/// it. What it gives is only named.
#[verifier::external_body]
pub(crate) fn reread_number(text: &str) -> (r: Option<Number>)
    ensures
        match r {
            Some(n) => number_reread(text@) == Some(n@),
            None => number_reread(text@) is None,
        },
{
    match serde_json::from_str::<serde_json::Number>(text) {
        Ok(n) => match (n.as_u64(), n.as_i64()) {
            (Some(u), _) => Some(Number::PosInt(u)),
            (None, Some(i)) => Some(Number::NegInt(i)),
            (None, None) => n.as_f64().map(|x| Number::Float(x.to_bits(), n.to_string())),
        },
        Err(_) => None,
    }
}

/// The `Debug` text of a string.
pub uninterp spec fn debug_text(s: Seq<char>) -> Seq<char>;

/// Every character is an ASCII letter or digit, or `*`.
pub open spec fn is_plain_text(s: Seq<char>) -> bool {
    forall|i: int|
        0 <= i < s.len() ==> ('a' <= #[trigger] s[i] <= 'z' || 'A' <= s[i] <= 'Z' || '0' <= s[i]
            <= '9' || s[i] == '*')
}

/// Formats a string with its `Debug` impl: the text in double quotes, with
/// the characters that need it escaped. Letters, digits and `*` need no
/// escape; the text of any other string is only named.
#[verifier::external_body]
pub(crate) fn debug_string(s: &String) -> (r: String)
    ensures
        r@ == debug_text(s@),
        is_plain_text(s@) ==> r@ == seq!['"'] + s@ + seq!['"'],
{
    format!("{:?}", s)
}

/// Makes a `String` of the given characters (`FromIterator<char>`).
#[verifier::external_body]
pub(crate) fn string_of(chars: &Vec<char>) -> (r: String)
    ensures
        r@ == chars@,
{
    chars.iter().collect()
}

/// The characters of `s`, in order.
pub fn chars_of(s: &str) -> (r: Vec<char>)
    ensures
        r@ == s@,
{
    let mut out: Vec<char> = Vec::new();
    for c in it: s.chars()
        invariant
            it.seq() == s@,
            out@ == s@.take(it.index() as int),
    {
        out.push(c);
    }
    assert(out@ == s@.take(s@.len() as int));
    out
}

} // verus!
