//! Text: decimal numerals, characters, and joining.

use vstd::prelude::*;

verus! {

/// `String::push` appends one character to the end of the string.
pub assume_specification[ String::push ](s: &mut String, c: char)
    ensures
        final(s)@ == old(s)@.push(c),
;

/// The ASCII digit of a number below ten.
pub open spec fn digit(d: nat) -> char {
    (48 + d) as char
}

/// The decimal numeral of a natural number, without leading zeros.
pub open spec fn decimal(n: nat) -> Seq<char>
    decreases n,
{
    if n < 10 {
        seq![digit(n)]
    } else {
        decimal(n / 10).push(digit(n % 10))
    }
}

/// The decimal numeral of an integer, with a minus sign where it is negative.
pub open spec fn signed_decimal(n: int) -> Seq<char> {
    if n < 0 {
        seq!['-'] + decimal((-n) as nat)
    } else {
        decimal(n as nat)
    }
}

/// Writes a number in decimal.
pub fn decimal_text(n: u128) -> (r: String)
    ensures
        r@ == decimal(n as nat),
    decreases n,
{
    if n < 10 {
        let mut s = String::new();
        s.push((48u8 + n as u8) as char);
        s
    } else {
        let mut s = decimal_text(n / 10);
        s.push((48u8 + (n % 10) as u8) as char);
        s
    }
}

/// Writes a signed number in decimal.
pub fn signed_decimal_text(n: i64) -> (r: String)
    ensures
        r@ == signed_decimal(n as int),
{
    if n < 0 {
        let mut s = String::new();
        s.push('-');
        let magnitude = decimal_text((-(n as i128)) as u128);
        s.append(magnitude.as_str());
        s
    } else {
        decimal_text(n as u128)
    }
}

/// The characters of a string, one by one.
pub fn chars_of(s: &str) -> (r: Vec<char>)
    ensures
        r@ == s@,
{
    let mut r: Vec<char> = Vec::new();
    for c in it: s.chars()
        invariant
            it.seq() == s@,
            r@ == s@.take(it.index() as int),
    {
        r.push(c);
    }
    r
}

/// Two texts, one after the other.
pub fn joined(a: &str, b: &str) -> (r: String)
    ensures
        r@ == a@ + b@,
{
    let mut r: String = a.to_owned();
    r.append(b);
    r
}

/// A text between two others.
pub fn framed(start: &str, middle: &str, end: &str) -> (r: String)
    ensures
        r@ == start@ + middle@ + end@,
{
    let mut r: String = start.to_owned();
    r.append(middle);
    r.append(end);
    r
}

/// Numerals consist of digits.
pub proof fn lemma_decimal_digits(n: nat)
    ensures
        decimal(n).len() > 0,
        forall|i: int| 0 <= i < decimal(n).len() ==> '0' <= #[trigger] decimal(n)[i] <= '9',
    decreases n,
{
    if n >= 10 {
        lemma_decimal_digits(n / 10);
    }
}

/// Different numbers have different numerals.
pub proof fn law_decimal_injective(a: nat, b: nat)
    requires
        decimal(a) == decimal(b),
    ensures
        a == b,
    decreases a,
{
    lemma_decimal_digits(a / 10);
    lemma_decimal_digits(b / 10);
    assert(decimal(a).last() == digit(a % 10));
    assert(decimal(b).last() == digit(b % 10));
    if a >= 10 && b >= 10 {
        assert(decimal(a).drop_last() == decimal(a / 10));
        assert(decimal(b).drop_last() == decimal(b / 10));
        law_decimal_injective(a / 10, b / 10);
    }
}

/// The number that a row of decimal digits stands for.
pub open spec fn value(digits: Seq<char>) -> int
    decreases digits.len(),
{
    if digits.len() == 0 {
        0
    } else {
        10 * value(digits.drop_last()) + (digits.last() as int - 48)
    }
}

/// A numeral stands for its number: its digits read as the number, and it starts with a zero only
/// where it is zero.
pub proof fn law_numeral_stands_for_its_number(n: nat)
    ensures
        value(decimal(n)) == n,
        decimal(n).len() > 0,
        forall|i: int| 0 <= i < decimal(n).len() ==> '0' <= #[trigger] decimal(n)[i] <= '9',
        decimal(n).len() > 1 ==> decimal(n)[0] != '0',
    decreases n,
{
    lemma_decimal_digits(n);
    assert(value(Seq::<char>::empty()) == 0);
    if n >= 10 {
        law_numeral_stands_for_its_number(n / 10);
        assert(decimal(n).drop_last() == decimal(n / 10));
        if decimal(n / 10).len() == 1 {
            assert(decimal(n / 10).drop_last() == Seq::<char>::empty());
            assert(value(decimal(n / 10)) == decimal(n / 10)[0] as int - 48);
        }
    } else {
        assert(decimal(n).drop_last() == Seq::<char>::empty());
    }
}

/// A number is written so that its digits read as the number, without leading zeros.
pub proof fn law_written_number_reads_back(n: u128, r: String)
    requires
        call_ensures(decimal_text, (n,), r),
    ensures
        value(r@) == n,
        r@.len() > 0,
        forall|i: int| 0 <= i < r@.len() ==> '0' <= #[trigger] r@[i] <= '9',
        r@.len() > 1 ==> r@[0] != '0',
{
    law_numeral_stands_for_its_number(n as nat);
}

/// A signed number is written with its magnitude, behind a minus sign exactly where it is negative.
pub proof fn law_written_signed_number_reads_back(n: i64, r: String)
    requires
        call_ensures(signed_decimal_text, (n,), r),
    ensures
        n >= 0 ==> value(r@) == n && r@[0] != '-' && (r@.len() > 1 ==> r@[0] != '0'),
        n < 0 ==> r@[0] == '-' && value(r@.skip(1)) == -n && r@.len() > 1 && r@[1] != '0',
{
    law_signed_numeral_stands_for_its_number(n as int);
}

/// A signed numeral stands for its number.
pub proof fn law_signed_numeral_stands_for_its_number(n: int)
    ensures
        n >= 0 ==> value(signed_decimal(n)) == n && signed_decimal(n)[0] != '-' && (signed_decimal(
            n,
        ).len() > 1 ==> signed_decimal(n)[0] != '0'),
        n < 0 ==> signed_decimal(n)[0] == '-' && value(signed_decimal(n).skip(1)) == -n
            && signed_decimal(n).len() > 1 && signed_decimal(n)[1] != '0',
{
    if n < 0 {
        let magnitude = decimal((-n) as nat);
        law_numeral_stands_for_its_number((-n) as nat);
        assert(signed_decimal(n).skip(1) == magnitude);
        assert(value(Seq::<char>::empty()) == 0);
        if magnitude.len() == 1 {
            assert(magnitude.drop_last() == Seq::<char>::empty());
            assert(value(magnitude) == magnitude[0] as int - 48);
        }
    } else {
        law_numeral_stands_for_its_number(n as nat);
    }
}

/// Joining loses and adds nothing: each text stands whole in the result, in order.
pub proof fn law_joined_texts_stand_whole(a: &str, b: &str, c: &str, two: String, three: String)
    requires
        call_ensures(joined, (a, b), two),
        call_ensures(framed, (a, b, c), three),
    ensures
        two@.len() == a@.len() + b@.len(),
        two@.take(a@.len() as int) == a@,
        two@.skip(a@.len() as int) == b@,
        three@.len() == a@.len() + b@.len() + c@.len(),
        three@.take(a@.len() as int) == a@,
        three@.subrange(a@.len() as int, (a@.len() + b@.len()) as int) == b@,
        three@.skip((a@.len() + b@.len()) as int) == c@,
{
}

/// The characters of a string are all of them, in order.
pub proof fn law_characters_are_all_there(s: &str, r: Vec<char>)
    requires
        call_ensures(chars_of, (s,), r),
    ensures
        r@.len() == s@.len(),
        forall|i: int| 0 <= i < s@.len() ==> #[trigger] r@[i] == s@[i],
{
}

} // verus!
