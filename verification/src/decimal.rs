//! Numbers in decimal notation, as the keys of the stored vectors are
//! written.

use vstd::prelude::*;
use vstd::string::StringExecFns;

verus! {

broadcast use vstd::string::group_string_axioms;

/// The character that writes the digit `d`.
pub open spec fn digit_char(d: nat) -> char
    recommends
        d < 10,
{
    if d == 0 {
        '0'
    } else if d == 1 {
        '1'
    } else if d == 2 {
        '2'
    } else if d == 3 {
        '3'
    } else if d == 4 {
        '4'
    } else if d == 5 {
        '5'
    } else if d == 6 {
        '6'
    } else if d == 7 {
        '7'
    } else if d == 8 {
        '8'
    } else {
        '9'
    }
}

/// The digit that `c` writes, if it writes one.
pub open spec fn digit_value(c: char) -> Option<nat> {
    if c == '0' {
        Some(0)
    } else if c == '1' {
        Some(1)
    } else if c == '2' {
        Some(2)
    } else if c == '3' {
        Some(3)
    } else if c == '4' {
        Some(4)
    } else if c == '5' {
        Some(5)
    } else if c == '6' {
        Some(6)
    } else if c == '7' {
        Some(7)
    } else if c == '8' {
        Some(8)
    } else if c == '9' {
        Some(9)
    } else {
        None
    }
}

/// The decimal notation of `n`, without sign or leading zeros.
pub open spec fn decimal_text(n: nat) -> Seq<char>
    decreases n,
{
    if n < 10 {
        seq![digit_char(n)]
    } else {
        decimal_text(n / 10).push(digit_char(n % 10))
    }
}

/// Whether every character of `s` writes a digit.
pub open spec fn all_digits(s: Seq<char>) -> bool {
    forall|i: int| 0 <= i < s.len() ==> digit_value(#[trigger] s[i]) is Some
}

/// The number that a run of digits writes in decimal notation.
pub open spec fn digits_number(s: Seq<char>) -> nat
    decreases s.len(),
{
    if s.len() == 0 {
        0
    } else {
        match digit_value(s.last()) {
            Some(d) => 10 * digits_number(s.drop_last()) + d,
            None => 10 * digits_number(s.drop_last()),
        }
    }
}

/// The digits of a text that may open with a plus sign.
pub open spec fn unsigned_part(s: Seq<char>) -> Seq<char> {
    if s.len() > 0 && s[0] == '+' {
        s.drop_first()
    } else {
        s
    }
}

/// The number that `s` writes: an optional plus sign and then one digit or
/// more, with a value that a machine word can hold. Any other text writes no
/// number.
pub open spec fn parsed_decimal(s: Seq<char>) -> Option<usize> {
    let digits = unsigned_part(s);
    if digits.len() > 0 && all_digits(digits) && digits_number(digits) <= usize::MAX {
        Some(digits_number(digits) as usize)
    } else {
        None
    }
}

/// The notation of a number is made of digits that write that number.
pub proof fn lemma_decimal_text(n: nat)
    ensures
        decimal_text(n).len() > 0,
        all_digits(decimal_text(n)),
        digits_number(decimal_text(n)) == n,
        decimal_text(n)[0] != '+',
    decreases n,
{
    reveal_with_fuel(digits_number, 2);
    if n >= 10 {
        lemma_decimal_text(n / 10);
        let head = decimal_text(n / 10);
        let all = decimal_text(n);
        assert(all.drop_last() =~= head);
        assert forall|i: int| 0 <= i < all.len() implies digit_value(#[trigger] all[i]) is Some by {}
    }
}

/// Reading the notation of a number that fits a machine word gives the
/// number.
pub proof fn lemma_parse_decimal_text(n: usize)
    ensures
        parsed_decimal(decimal_text(n as nat)) == Some(n),
{
    lemma_decimal_text(n as nat);
}

/// A run of digits writes at least what its first digits write.
pub proof fn lemma_digits_number_grows(s: Seq<char>, i: int)
    requires
        0 <= i <= s.len(),
    ensures
        digits_number(s.take(i)) <= digits_number(s),
    decreases s.len() - i,
{
    if i < s.len() {
        lemma_digits_number_grows(s, i + 1);
        assert(s.take(i + 1).drop_last() =~= s.take(i));
    } else {
        assert(s.take(i) =~= s);
    }
}

/// The text of one digit.
fn digit_str(d: usize) -> (r: &'static str)
    requires
        d < 10,
    ensures
        r@ == seq![digit_char(d as nat)],
{
    proof {
        reveal_strlit("0");
        reveal_strlit("1");
        reveal_strlit("2");
        reveal_strlit("3");
        reveal_strlit("4");
        reveal_strlit("5");
        reveal_strlit("6");
        reveal_strlit("7");
        reveal_strlit("8");
        reveal_strlit("9");
    }
    let r: &'static str = if d == 0 {
        "0"
    } else if d == 1 {
        "1"
    } else if d == 2 {
        "2"
    } else if d == 3 {
        "3"
    } else if d == 4 {
        "4"
    } else if d == 5 {
        "5"
    } else if d == 6 {
        "6"
    } else if d == 7 {
        "7"
    } else if d == 8 {
        "8"
    } else {
        "9"
    };
    r
}

/// The digit that `c` writes, if it writes one.
fn digit_of(c: char) -> (r: Option<usize>)
    ensures
        match r {
            Some(d) => digit_value(c) == Some(d as nat) && d < 10,
            None => digit_value(c) is None,
        },
{
    if c == '0' {
        Some(0)
    } else if c == '1' {
        Some(1)
    } else if c == '2' {
        Some(2)
    } else if c == '3' {
        Some(3)
    } else if c == '4' {
        Some(4)
    } else if c == '5' {
        Some(5)
    } else if c == '6' {
        Some(6)
    } else if c == '7' {
        Some(7)
    } else if c == '8' {
        Some(8)
    } else if c == '9' {
        Some(9)
    } else {
        None
    }
}

/// The decimal notation of `n`.
pub fn decimal_string(n: usize) -> (s: String)
    ensures
        s@ == decimal_text(n as nat),
{
    let mut s: String = String::from_str(digit_str(n % 10));
    let mut rest: usize = n / 10;
    while rest > 0
        invariant
            decimal_text(n as nat) == if rest > 0 {
                decimal_text(rest as nat) + s@
            } else {
                s@
            },
        decreases rest,
    {
        s = String::from_str(digit_str(rest % 10)).concat(s.as_str());
        rest = rest / 10;
    }
    s
}

/// The number that `s` writes in decimal notation, if it writes one that a
/// machine word can hold.
pub fn parse_decimal(s: &str) -> (r: Option<usize>)
    ensures
        r == parsed_decimal(s@),
{
    let mut value: usize = 0;
    let mut first: bool = true;
    let mut any: bool = false;
    let ghost digits = unsigned_part(s@);
    let ghost start: int = if s@.len() > 0 && s@[0] == '+' {
        1
    } else {
        0
    };
    for c in it: s.chars()
        invariant
            it.seq() == s@,
            digits == unsigned_part(s@),
            digits == s@.skip(start),
            start == (if s@.len() > 0 && s@[0] == '+' {
                1int
            } else {
                0int
            }),
            first == (it.index() == 0),
            any == (it.index() > start),
            forall|j: int| 0 <= j < it.index() - start ==> digit_value(#[trigger] digits[j]) is Some,
            value == digits_number(
                digits.take(
                    if it.index() > start {
                        it.index() - start
                    } else {
                        0
                    },
                ),
            ),
    {
        let ghost idx = it.index() as int;
        if first && c == '+' {
            first = false;
        } else {
            first = false;
            proof {
                assert(digits.take(idx - start + 1).drop_last() =~= digits.take(idx - start));
                lemma_digits_number_grows(digits, idx - start + 1);
            }
            match digit_of(c) {
                None => {
                    return None;
                },
                Some(d) => {
                    if value > (usize::MAX - d) / 10 {
                        return None;
                    }
                    value = value * 10 + d;
                    any = true;
                },
            }
        }
    }
    assert(digits.take(digits.len() as int) =~= digits);
    if any {
        Some(value)
    } else {
        None
    }
}

} // verus!
