//! Building of message texts.
use vstd::prelude::*;
use vstd::string::*;
use vstd::utf8::*;

verus! {

/// The character of a decimal digit.
pub open spec fn digit_char(digit: nat) -> char
    recommends
        digit < 10,
{
    if digit == 0 {
        '0'
    } else if digit == 1 {
        '1'
    } else if digit == 2 {
        '2'
    } else if digit == 3 {
        '3'
    } else if digit == 4 {
        '4'
    } else if digit == 5 {
        '5'
    } else if digit == 6 {
        '6'
    } else if digit == 7 {
        '7'
    } else if digit == 8 {
        '8'
    } else {
        '9'
    }
}

/// A number in decimal notation.
pub open spec fn decimal(number: nat) -> Seq<char>
    decreases number,
{
    if number < 10 {
        seq![digit_char(number)]
    } else {
        decimal(number / 10).push(digit_char(number % 10))
    }
}

/// Different numbers have different decimal notations.
pub proof fn decimals_are_distinct(a: nat, b: nat)
    requires
        a != b,
    ensures
        decimal(a) != decimal(b),
    decreases a + b,
{
    decimal_is_not_empty(a);
    decimal_is_not_empty(b);
    if a < 10 && b < 10 {
        assert(decimal(a)[0] == digit_char(a));
        assert(decimal(b)[0] == digit_char(b));
    } else if a >= 10 && b >= 10 {
        if decimal(a) == decimal(b) {
            assert(decimal(a).last() == digit_char(a % 10));
            assert(decimal(b).last() == digit_char(b % 10));
            assert(a % 10 == b % 10);
            assert(decimal(a).drop_last() =~= decimal(a / 10));
            assert(decimal(b).drop_last() =~= decimal(b / 10));
            decimals_are_distinct(a / 10, b / 10);
        }
    } else if a >= 10 {
        decimal_is_not_empty(a / 10);
        assert(decimal(b).len() == 1);
    } else {
        decimal_is_not_empty(b / 10);
        assert(decimal(a).len() == 1);
    }
}

proof fn decimal_is_not_empty(number: nat)
    ensures
        decimal(number).len() >= 1,
{
}

fn digit_text(digit: u64) -> (text: &'static str)
    requires
        digit < 10,
    ensures
        text@ == seq![digit_char(digit as nat)],
{
    proof {
        reveal_strlit("0");
        reveal_strlit("1");
        reveal_strlit("2");
        reveal_strlit("3");
        reveal_strlit("4");
        reveal_strlit("5");
        reveal_strlit("6");
        reveal_strlit("7");
        reveal_strlit("8");
        reveal_strlit("9");
    }
    let text: &'static str = match digit {
        0 => "0",
        1 => "1",
        2 => "2",
        3 => "3",
        4 => "4",
        5 => "5",
        6 => "6",
        7 => "7",
        8 => "8",
        _ => "9",
    };
    proof {
        assert(text@ =~= seq![digit_char(digit as nat)]);
    }
    text
}

/// Appends a number in decimal notation.
pub fn push_decimal(text: &mut String, number: u64)
    ensures
        final(text)@ == old(text)@ + decimal(number as nat),
    decreases number,
{
    let ghost before = text@;
    if number >= 10 {
        push_decimal(text, number / 10);
    }
    let ghost middle = text@;
    text.append(digit_text(number % 10));
    proof {
        if number >= 10 {
            assert(text@ =~= before + decimal((number / 10) as nat).push(
                digit_char((number % 10) as nat),
            ));
        } else {
            assert(text@ =~= before + decimal(number as nat));
        }
    }
}

/// Joins two texts.
pub fn join(left: &str, right: &str) -> (text: String)
    ensures
        text@ == left@ + right@,
{
    let mut text: String = left.to_owned();
    text.append(right);
    text
}

/// Joins two texts around a number in decimal notation.
pub fn join_number(left: &str, number: u64, right: &str) -> (text: String)
    ensures
        text@ == left@ + decimal(number as nat) + right@,
{
    let mut text: String = left.to_owned();
    push_decimal(&mut text, number);
    text.append(right);
    text
}

/// A text between quotation marks, with escapes for the characters that need them.
pub uninterp spec fn quoted_text(text: Seq<char>) -> Seq<char>;

/// Puts a text between quotation marks.
///
/// Formats the text with `<str as Debug>::fmt`, whose output depends on the characters alone.
/// Which characters are escaped, and how, is not said.
#[verifier::external_body]
pub(crate) fn quoted(text: &str) -> (quoted: String)
    ensures
        quoted@ == quoted_text(text@),
{
    format!("{:?}", text)
}

/// Reads bytes as text.
///
/// Calls `String::from_utf8`, which accepts exactly the bytes that are valid UTF-8 and
/// returns the characters that they encode.
#[verifier::external_body]
pub(crate) fn text_from_utf8(bytes: Vec<u8>) -> (text: Option<String>)
    ensures
        match text {
            Some(text) => valid_utf8(bytes@) && text@ == decode_utf8(bytes@),
            None => !valid_utf8(bytes@),
        },
{
    String::from_utf8(bytes).ok()
}

/// The digit that a character stands for.
pub open spec fn digit_of(c: char) -> nat {
    (c as nat - '0' as nat) as nat
}

/// The number that digits stand for.
pub open spec fn number_of(digits: Seq<char>) -> nat
    decreases digits.len(),
{
    if digits.len() == 0 {
        0
    } else {
        number_of(digits.drop_last()) * 10 + digit_of(digits.last())
    }
}

/// The decimal digits of a number stand for it, are digits, and do not begin with a zero unless
/// there is only one of them.
pub proof fn decimal_digits_stand_for_their_number(number: nat)
    ensures
        number_of(decimal(number)) == number,
        decimal(number).len() > 0,
        decimal(number).len() > 1 ==> decimal(number)[0] != '0',
        forall|i: int|
            0 <= i < decimal(number).len() ==> '0' <= #[trigger] decimal(number)[i] <= '9',
    decreases number,
{
    if number < 10 {
        let one = decimal(number);
        assert(one.drop_last() =~= Seq::<char>::empty());
        assert(number_of(one.drop_last()) == 0);
        assert(one.last() == digit_char(number));
    } else {
        let high = number / 10;
        let low = number % 10;
        decimal_digits_stand_for_their_number(high);
        let all = decimal(number);
        assert(all.drop_last() =~= decimal(high));
        assert(all.last() == digit_char(low));
        assert(all[0] == decimal(high)[0]);
        if high < 10 {
            assert(decimal(high)[0] == digit_char(high));
        } else {
            assert(decimal(high).len() > 1) by {
                decimal_digits_stand_for_their_number(high / 10);
            }
        }
    }
}

} // verus!
