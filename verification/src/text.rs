use vstd::prelude::*;
use vstd::string::StringExecFns;

verus! {

/// The character for a digit below sixteen.
pub open spec fn digit_char(digit: int) -> char {
    if digit == 0 {
        '0'
    } else if digit == 1 {
        '1'
    } else if digit == 2 {
        '2'
    } else if digit == 3 {
        '3'
    } else if digit == 4 {
        '4'
    } else if digit == 5 {
        '5'
    } else if digit == 6 {
        '6'
    } else if digit == 7 {
        '7'
    } else if digit == 8 {
        '8'
    } else if digit == 9 {
        '9'
    } else if digit == 10 {
        'a'
    } else if digit == 11 {
        'b'
    } else if digit == 12 {
        'c'
    } else if digit == 13 {
        'd'
    } else if digit == 14 {
        'e'
    } else {
        'f'
    }
}

/// The digits of `value` in base `base`, most significant first, without
/// leading zeros; zero is the single digit 0.
pub open spec fn digits_text(value: nat, base: nat) -> Seq<char>
    recommends
        2 <= base <= 16,
    decreases value,
{
    if value < base || base < 2 {
        seq![digit_char(value as int)]
    } else {
        proof {
            vstd::arithmetic::div_mod::lemma_div_decreases(value as int, base as int);
        }
        digits_text(value / base, base).push(digit_char((value % base) as int))
    }
}

/// `value` in decimal.
pub open spec fn decimal_text(value: nat) -> Seq<char> {
    digits_text(value, 10)
}

/// `value` in hexadecimal with lower-case digits, after the prefix `0x`.
pub open spec fn hex_text(value: nat) -> Seq<char> {
    "0x"@ + digits_text(value, 16)
}

/// The text of one digit.
fn digit_str(digit: usize) -> (text: &'static str)
    requires
        digit < 16,
    ensures
        text@ == seq![digit_char(digit as int)],
{
    proof {
        reveal_strlit("0");
        reveal_strlit("1");
        reveal_strlit("2");
        reveal_strlit("3");
        reveal_strlit("4");
        reveal_strlit("5");
        reveal_strlit("6");
        reveal_strlit("7");
        reveal_strlit("8");
        reveal_strlit("9");
        reveal_strlit("a");
        reveal_strlit("b");
        reveal_strlit("c");
        reveal_strlit("d");
        reveal_strlit("e");
        reveal_strlit("f");
    }
    let text = if digit == 0 {
        "0"
    } else if digit == 1 {
        "1"
    } else if digit == 2 {
        "2"
    } else if digit == 3 {
        "3"
    } else if digit == 4 {
        "4"
    } else if digit == 5 {
        "5"
    } else if digit == 6 {
        "6"
    } else if digit == 7 {
        "7"
    } else if digit == 8 {
        "8"
    } else if digit == 9 {
        "9"
    } else if digit == 10 {
        "a"
    } else if digit == 11 {
        "b"
    } else if digit == 12 {
        "c"
    } else if digit == 13 {
        "d"
    } else if digit == 14 {
        "e"
    } else {
        "f"
    };
    assert(text@ =~= seq![digit_char(digit as int)]);
    text
}

/// The digits of `value` in base `base`.
fn digits_string(value: usize, base: usize) -> (text: String)
    requires
        2 <= base <= 16,
    ensures
        text@ == digits_text(value as nat, base as nat),
    decreases value,
{
    if value < base {
        String::from_str(digit_str(value))
    } else {
        proof {
            vstd::arithmetic::div_mod::lemma_div_decreases(value as int, base as int);
        }
        let text = digits_string(value / base, base).concat(digit_str(value % base));
        assert(text@ =~= digits_text(value as nat, base as nat));
        text
    }
}

/// `value` written in decimal.
pub fn decimal_string(value: usize) -> (text: String)
    ensures
        text@ == decimal_text(value as nat),
{
    digits_string(value, 10)
}

/// `value` written in hexadecimal after the prefix `0x`, with lower-case
/// digits: the way an address is shown.
pub fn hex_string(value: usize) -> (text: String)
    ensures
        text@ == hex_text(value as nat),
{
    String::from_str("0x").concat(digits_string(value, 16).as_str())
}

} // verus!
