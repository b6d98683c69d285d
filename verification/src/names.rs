//! The synthetic names that take the place of renamed identifiers: a fixed
//! prefix and a number in decimal.

use vstd::prelude::*;
use vstd::string::*;
use vstd::utf8::*;
use crate::protect::{plain, plain_run};

verus! {

/// The character of a decimal digit.
pub open spec fn digit_char(d: int) -> char {
    if d == 0 {
        '0'
    } else if d == 1 {
        '1'
    } else if d == 2 {
        '2'
    } else if d == 3 {
        '3'
    } else if d == 4 {
        '4'
    } else if d == 5 {
        '5'
    } else if d == 6 {
        '6'
    } else if d == 7 {
        '7'
    } else if d == 8 {
        '8'
    } else {
        '9'
    }
}

/// `n` written in decimal, without leading zeros.
pub open spec fn decimal(n: nat) -> Seq<char>
    decreases n,
{
    if n < 10 {
        seq![digit_char(n as int)]
    } else {
        decimal(n / 10) + seq![digit_char((n % 10) as int)]
    }
}

/// The name of the `n`-th renamed method: `func_` and the number.
pub open spec fn method_name(n: nat) -> Seq<char> {
    "func_"@ + decimal(n)
}

/// The name of the `n`-th parameter or local of a method: `var_` and the number.
pub open spec fn local_name(n: nat) -> Seq<char> {
    "var_"@ + decimal(n)
}

fn digit_str(d: usize) -> (s: &'static str)
    requires
        d < 10,
    ensures
        s@ == seq![digit_char(d as int)],
{
    proof {
        reveal_strlit("0");
        reveal_strlit("1");
        reveal_strlit("2");
        reveal_strlit("3");
        reveal_strlit("4");
        reveal_strlit("5");
        reveal_strlit("6");
        reveal_strlit("7");
        reveal_strlit("8");
        reveal_strlit("9");
    }
    let s = if d == 0 {
        "0"
    } else if d == 1 {
        "1"
    } else if d == 2 {
        "2"
    } else if d == 3 {
        "3"
    } else if d == 4 {
        "4"
    } else if d == 5 {
        "5"
    } else if d == 6 {
        "6"
    } else if d == 7 {
        "7"
    } else if d == 8 {
        "8"
    } else {
        "9"
    };
    assert(s@ =~= seq![digit_char(d as int)]);
    s
}

/// `n` in decimal.
pub fn decimal_string(n: usize) -> (s: String)
    ensures
        s@ == decimal(n as nat),
    decreases n,
{
    if n < 10 {
        String::from_str(digit_str(n))
    } else {
        let mut s = decimal_string(n / 10);
        s.append(digit_str(n % 10));
        s
    }
}

/// The synthetic name of the `n`-th method.
pub fn make_method_name(n: usize) -> (s: String)
    ensures
        s@ == method_name(n as nat),
{
    let mut s = String::from_str("func_");
    let digits = decimal_string(n);
    s.append(digits.as_str());
    s
}

/// The synthetic name of the `n`-th parameter or local.
pub fn make_local_name(n: usize) -> (s: String)
    ensures
        s@ == local_name(n as nat),
{
    let mut s = String::from_str("var_");
    let digits = decimal_string(n);
    s.append(digits.as_str());
    s
}

/// A synthetic name ends in a decimal digit.
pub proof fn lemma_decimal_ends_in_digit(n: nat)
    ensures
        decimal(n).len() > 0,
        decimal(n).last() == digit_char((n % 10) as int),
    decreases n,
{
    if n >= 10 {
        lemma_decimal_ends_in_digit(n / 10);
    }
}

/// The characters of a number in decimal are digits.
pub proof fn lemma_decimal_digits(n: nat)
    ensures
        forall|i: int| 0 <= i < decimal(n).len() ==> '0' <= #[trigger] decimal(n)[i] <= '9',
    decreases n,
{
    let d = decimal(n);
    if n >= 10 {
        lemma_decimal_digits(n / 10);
        let head = decimal(n / 10);
        assert forall|i: int| 0 <= i < d.len() implies '0' <= #[trigger] d[i] <= '9' by {
            if i < head.len() {
                assert(d[i] == head[i]);
            } else {
                assert(d[i] == digit_char((n % 10) as int));
            }
        }
    } else {
        assert(d[0] == digit_char(n as int));
    }
}

proof fn lemma_ascii_name_plain(name: Seq<char>)
    requires
        name.len() > 0,
        forall|i: int|
            0 <= i < name.len() ==> ('0' <= #[trigger] name[i] <= '9') || ('a' <= name[i] <= 'z')
                || name[i] == '_',
    ensures
        encode_utf8(name).len() > 0,
        plain_run(encode_utf8(name), 0, encode_utf8(name).len() as int),
{
    assert(is_ascii_chars(name));
    is_ascii_chars_encode_utf8(name);
    let bytes = encode_utf8(name);
    assert forall|i: int| 0 <= i < bytes.len() implies plain(#[trigger] bytes[i]) by {
        assert(bytes[i] == name[i] as u8);
    }
}

/// A synthetic name is not empty, and none of its bytes means anything to
/// the scanner of protected text.
pub proof fn lemma_synthetic_plain(n: nat)
    ensures
        encode_utf8(method_name(n)).len() > 0,
        plain_run(encode_utf8(method_name(n)), 0, encode_utf8(method_name(n)).len() as int),
        encode_utf8(local_name(n)).len() > 0,
        plain_run(encode_utf8(local_name(n)), 0, encode_utf8(local_name(n)).len() as int),
{
    reveal_strlit("func_");
    reveal_strlit("var_");
    lemma_decimal_digits(n);
    lemma_ascii_name_plain(method_name(n));
    lemma_ascii_name_plain(local_name(n));
}

} // verus!
