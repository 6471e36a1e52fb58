use vstd::prelude::*;
use vstd::string::*;

verus! {

/// The character of a decimal digit.
pub open spec fn digit_char(d: nat) -> char {
    if d == 0 {
        '0'
    } else if d == 1 {
        '1'
    } else if d == 2 {
        '2'
    } else if d == 3 {
        '3'
    } else if d == 4 {
        '4'
    } else if d == 5 {
        '5'
    } else if d == 6 {
        '6'
    } else if d == 7 {
        '7'
    } else if d == 8 {
        '8'
    } else {
        '9'
    }
}

/// Whether the character is a decimal digit.
pub open spec fn is_digit(c: char) -> bool {
    c == '0' || c == '1' || c == '2' || c == '3' || c == '4' || c == '5' || c == '6' || c == '7'
        || c == '8' || c == '9'
}

/// The number that a decimal digit stands for.
pub open spec fn digit_value(c: char) -> nat {
    if c == '1' {
        1
    } else if c == '2' {
        2
    } else if c == '3' {
        3
    } else if c == '4' {
        4
    } else if c == '5' {
        5
    } else if c == '6' {
        6
    } else if c == '7' {
        7
    } else if c == '8' {
        8
    } else if c == '9' {
        9
    } else {
        0
    }
}

/// The decimal numeral of a number, without leading zeros.
pub open spec fn decimal(n: nat) -> Seq<char>
    decreases n,
{
    if n < 10 {
        seq![digit_char(n)]
    } else {
        decimal(n / 10).push(digit_char(n % 10))
    }
}

/// Every character is a decimal digit.
pub open spec fn all_digits(text: Seq<char>) -> bool {
    forall|i: int| 0 <= i < text.len() ==> is_digit(#[trigger] text[i])
}

/// The text is a decimal numeral without leading zeros.
pub open spec fn is_numeral(text: Seq<char>) -> bool {
    &&& text.len() > 0
    &&& all_digits(text)
    &&& text.len() > 1 ==> text[0] != '0'
}

/// The number that a text of digits stands for.
pub open spec fn numeral_value(text: Seq<char>) -> nat
    decreases text.len(),
{
    if text.len() == 0 {
        0
    } else {
        10 * numeral_value(text.drop_last()) + digit_value(text.last())
    }
}

/// The number that a text stands for, where it is the decimal numeral of a
/// number that fits in 64 bits.
pub open spec fn parse(text: Seq<char>) -> Option<u64> {
    if is_numeral(text) && numeral_value(text) <= u64::MAX {
        Some(numeral_value(text) as u64)
    } else {
        None
    }
}

/// A digit and its character stand for each other.
pub proof fn lemma_digit(d: nat)
    requires
        d < 10,
    ensures
        is_digit(digit_char(d)),
        digit_value(digit_char(d)) == d,
        digit_char(d) == '0' <==> d == 0,
{
}

/// The decimal numeral of a number is a numeral, and it stands for that number.
pub proof fn lemma_decimal_is_numeral(n: nat)
    ensures
        is_numeral(decimal(n)),
        numeral_value(decimal(n)) == n,
        n > 0 ==> decimal(n)[0] != '0',
    decreases n,
{
    if n < 10 {
        lemma_digit(n);
        assert(numeral_value(decimal(n).drop_last()) == 0);
    } else {
        lemma_decimal_is_numeral(n / 10);
        lemma_digit(n % 10);
        assert(decimal(n).drop_last() =~= decimal(n / 10));
    }
}

/// A numeral is the decimal numeral of the number it stands for.
pub proof fn lemma_numeral_is_decimal(text: Seq<char>)
    requires
        is_numeral(text),
    ensures
        decimal(numeral_value(text)) == text,
        text.len() > 1 ==> numeral_value(text) >= 10,
        text[0] != '0' ==> numeral_value(text) > 0,
    decreases text.len(),
{
    if text.len() == 1 {
        assert(numeral_value(text.drop_last()) == 0);
    } else {
        // The digits before the last stand for the quotient by ten, the last
        // digit for the remainder.
        assert(is_numeral(text.drop_last()));
        lemma_numeral_is_decimal(text.drop_last());
        assert(text.drop_last().push(text.last()) =~= text);
    }
}

/// Different numbers have different decimal numerals.
pub proof fn lemma_decimal_injective(a: nat, b: nat)
    requires
        decimal(a) == decimal(b),
    ensures
        a == b,
{
    lemma_decimal_is_numeral(a);
    lemma_decimal_is_numeral(b);
}

/// Reading the decimal numeral of a number gives the number back, and only
/// a decimal numeral is read as a number.
pub proof fn lemma_parse_decimal(n: u64)
    ensures
        parse(decimal(n as nat)) == Some(n),
{
    lemma_decimal_is_numeral(n as nat);
}

/// What is read as a number is the decimal numeral of that number.
pub proof fn lemma_parse_is_decimal(text: Seq<char>)
    ensures
        parse(text) matches Some(n) ==> decimal(n as nat) == text,
{
    if parse(text) is Some {
        lemma_numeral_is_decimal(text);
    }
}

/// The number that a text of digits stands for does not shrink as the text grows.
pub proof fn lemma_numeral_value_grows(text: Seq<char>, k: int)
    requires
        0 <= k <= text.len(),
    ensures
        numeral_value(text.subrange(0, k)) <= numeral_value(text),
    decreases text.len() - k,
{
    if k == text.len() {
        assert(text.subrange(0, k) =~= text);
    } else {
        lemma_numeral_value_grows(text.drop_last(), k);
        assert(text.drop_last().subrange(0, k) =~= text.subrange(0, k));
    }
}

/// The text of one decimal digit.
fn digit_text(d: u64) -> (r: &'static str)
    requires
        d < 10,
    ensures
        r@ == seq![digit_char(d as nat)],
{
    proof {
        reveal_strlit("0");
        reveal_strlit("1");
        reveal_strlit("2");
        reveal_strlit("3");
        reveal_strlit("4");
        reveal_strlit("5");
        reveal_strlit("6");
        reveal_strlit("7");
        reveal_strlit("8");
        reveal_strlit("9");
    }
    let r = if d == 0 {
        "0"
    } else if d == 1 {
        "1"
    } else if d == 2 {
        "2"
    } else if d == 3 {
        "3"
    } else if d == 4 {
        "4"
    } else if d == 5 {
        "5"
    } else if d == 6 {
        "6"
    } else if d == 7 {
        "7"
    } else if d == 8 {
        "8"
    } else {
        "9"
    };
    r
}

/// Appends the decimal numeral of a number to a text.
pub fn append_decimal(out: &mut String, n: u64)
    ensures
        final(out)@ == old(out)@ + decimal(n as nat),
    decreases n,
{
    if n >= 10 {
        append_decimal(out, n / 10);
    }
    out.append(digit_text(n % 10));
}

/// The decimal numeral of a number.
pub fn to_decimal(n: u64) -> (r: String)
    ensures
        r@ == decimal(n as nat),
{
    let mut r = String::new();
    append_decimal(&mut r, n);
    r
}

/// The number that a decimal digit stands for, if the character is one.
fn digit_of(c: char) -> (r: Option<u64>)
    ensures
        r is Some <==> is_digit(c),
        r matches Some(d) ==> d == digit_value(c) && d < 10,
{
    if c == '0' {
        Some(0)
    } else if c == '1' {
        Some(1)
    } else if c == '2' {
        Some(2)
    } else if c == '3' {
        Some(3)
    } else if c == '4' {
        Some(4)
    } else if c == '5' {
        Some(5)
    } else if c == '6' {
        Some(6)
    } else if c == '7' {
        Some(7)
    } else if c == '8' {
        Some(8)
    } else if c == '9' {
        Some(9)
    } else {
        None
    }
}

/// Reads a decimal numeral without leading zeros. There is a number exactly
/// where the text is the numeral of one that fits in 64 bits.
pub fn from_decimal(text: &str) -> (r: Option<u64>)
    ensures
        r == parse(text@),
{
    let n: usize = text.unicode_len();
    if n == 0 {
        return None;
    }
    if n > 1 && text.get_char(0) == '0' {
        return None;
    }
    let mut value: u64 = 0;
    let mut i: usize = 0;
    while i < n
        invariant
            i <= n,
            n == text@.len(),
            all_digits(text@.subrange(0, i as int)),
            value == numeral_value(text@.subrange(0, i as int)),
        decreases n - i,
    {
        let ghost before = text@.subrange(0, i as int);
        let ghost now = text@.subrange(0, i + 1);
        assert(now.drop_last() =~= before);
        match digit_of(text.get_char(i)) {
            None => {
                return None;
            },
            Some(d) => {
                if value > (u64::MAX - d) / 10 {
                    proof {
                        lemma_numeral_value_grows(text@, i + 1);
                    }
                    return None;
                }
                value = value * 10 + d;
                assert(all_digits(now)) by {
                    assert forall|k: int| 0 <= k < i implies is_digit(#[trigger] now[k]) by {
                        assert(now[k] == before[k]);
                    }
                }
            },
        }
        i += 1;
    }
    assert(text@.subrange(0, n as int) =~= text@);
    Some(value)
}

} // verus!
