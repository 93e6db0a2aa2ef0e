//! Text, character by character.

use vstd::prelude::*;

verus! {

/// Whether two texts are the same.
pub fn same_text(a: &str, b: &str) -> (same: bool)
    ensures
        same == (a@ == b@),
{
    let a: String = a.to_owned();
    let b: String = b.to_owned();
    a == b
}

/// Whether a character is a decimal digit.
pub open spec fn is_digit(c: char) -> bool {
    '0' <= c <= '9'
}

/// The number that decimal digits stand for.
pub open spec fn decimal(digits: Seq<char>) -> int
    decreases digits.len(),
{
    if digits.len() == 0 {
        0
    } else {
        10 * decimal(digits.drop_last()) + (digits.last() as int - '0' as int)
    }
}

/// The digits of a written number: a plus sign may stand in front.
pub open spec fn digits_of(s: Seq<char>) -> Seq<char> {
    if s.len() > 0 && s[0] == '+' {
        s.skip(1)
    } else {
        s
    }
}

/// Whether a text is a number from zero to `max`, in decimal.
pub open spec fn is_number(s: Seq<char>, max: int) -> bool {
    let digits = digits_of(s);
    &&& digits.len() > 0
    &&& forall|i: int| 0 <= i < digits.len() ==> is_digit(#[trigger] digits[i])
    &&& decimal(digits) <= max
}

/// What digits stand for does not shrink as more are read.
proof fn decimals_grow(digits: Seq<char>, k: int)
    requires
        0 <= k <= digits.len(),
        forall|i: int| 0 <= i < digits.len() ==> is_digit(#[trigger] digits[i]),
    ensures
        0 <= decimal(digits.take(k)) <= decimal(digits),
    decreases digits.len(),
{
    if digits.len() == 0 {
        assert(digits.take(k) =~= digits);
    } else {
        let front = digits.drop_last();
        assert forall|i: int| 0 <= i < front.len() implies is_digit(#[trigger] front[i]) by {
            assert(front[i] == digits[i]);
        }
        assert(is_digit(digits[digits.len() - 1]));
        if k == digits.len() {
            decimals_grow(front, front.len() as int);
            assert(front.take(front.len() as int) =~= front);
            assert(digits.take(k) =~= digits);
        } else {
            decimals_grow(front, k);
            assert(front.take(k) =~= digits.take(k));
        }
    }
}

/// What is written without a sign below zero is not below it.
pub(crate) proof fn a_number_is_not_negative(s: Seq<char>, max: int)
    requires
        is_number(s, max),
    ensures
        0 <= decimal(digits_of(s)) <= max,
{
    let d = digits_of(s);
    decimals_grow(d, 0);
    assert(d.take(0) =~= Seq::empty());
}

/// Reads a number from zero to `max`, in decimal.
pub fn parse_number(s: &str, max: u64) -> (n: Option<u64>)
    ensures
        n is Some <==> is_number(s@, max as int),
        n matches Some(v) ==> v == decimal(digits_of(s@)),
{
    let ghost digits = digits_of(s@);
    let len: usize = s.unicode_len();
    let mut first: usize = 0;
    if len > 0 && s.get_char(0) == '+' {
        first = 1;
    }
    if first == len {
        return None;
    }
    let mut acc: u64 = 0;
    let mut k: usize = first;
    assert(digits.take(0) =~= Seq::empty());
    while k < len
        invariant
            len == s@.len(),
            first <= k <= len,
            digits == digits_of(s@),
            digits.len() == len - first,
            forall|i: int| 0 <= i < digits.len() ==> #[trigger] digits[i] == s@[first + i],
            forall|i: int| 0 <= i < k - first ==> is_digit(#[trigger] digits[i]),
            acc == decimal(digits.take(k - first)),
            acc <= max,
        decreases len - k,
    {
        let c: char = s.get_char(k);
        assert(digits[k - first] == c);
        if c < '0' || c > '9' {
            return None;
        }
        let d: u64 = (c as u32 - '0' as u32) as u64;
        assert(digits.take(k + 1 - first).drop_last() =~= digits.take(k - first));
        let next: u128 = 10 * acc as u128 + d as u128;
        if next > max as u128 {
            proof {
                if is_number(s@, max as int) {
                    decimals_grow(digits, k + 1 - first);
                }
            }
            return None;
        }
        acc = next as u64;
        k = k + 1;
    }
    assert(digits.take(len - first) =~= digits);
    Some(acc)
}

/// A number is read digit by digit, each worth ten of the next: one digit more makes
/// ten times the number and what the digit stands for, as long as that still fits.
/// There are ten digits, from zero to nine, and nothing else makes a number longer.
pub proof fn one_digit_more_is_ten_times_as_much(s: Seq<char>, c: char, max: int)
    requires
        is_number(s, max),
    ensures
        ({
            let more = s.push(c);
            let was = decimal(digits_of(s));
            let worth = c as int - 48;
            &&& 0 <= was <= max
            &&& is_number(more, max) <==> 0 <= worth <= 9 && 10 * was + worth <= max
            &&& decimal(digits_of(more)) == 10 * was + worth
        }),
{
    let more = s.push(c);
    let d = digits_of(s);
    assert(digits_of(more) =~= d.push(c));
    assert(d.push(c).drop_last() =~= d);
    decimals_grow(d, 0);
    assert(d.take(0) =~= Seq::empty());
    let e = d.push(c);
    assert(e[d.len() as int] == c);
    if is_digit(c) {
        assert forall|i: int| 0 <= i < e.len() implies is_digit(#[trigger] e[i]) by {
            if i < d.len() {
                assert(e[i] == d[i]);
            }
        }
    }
}

/// One character alone is a number if it is a digit, and stands for itself. A plus
/// sign in front changes nothing, but does not make a number alone or twice; neither
/// does nothing at all.
pub proof fn a_number_starts_with_a_digit(s: Seq<char>, c: char, max: int)
    requires
        max >= 9,
    ensures
        is_number(seq![c], max) <==> 48 <= c as int <= 57,
        48 <= c as int <= 57 ==> decimal(digits_of(seq![c])) == c as int - 48,
        s.len() > 0 && s[0] != '+' ==> {
            &&& is_number(seq!['+'] + s, max) <==> is_number(s, max)
            &&& decimal(digits_of(seq!['+'] + s)) == decimal(digits_of(s))
        },
        s.len() > 0 && s[0] == '+' ==> !is_number(seq!['+'] + s, max),
        !is_number(seq!['+'], max),
        !is_number(Seq::empty(), max),
{
    let one = seq![c];
    assert(one.drop_last() =~= Seq::empty());
    reveal_with_fuel(decimal, 2);
    assert(one[0] == c);
    assert(one.skip(1) =~= Seq::empty());
    if c != '+' {
        assert(digits_of(one) =~= one);
    }
    assert(seq!['+'].skip(1) =~= Seq::empty());
    let signed = seq!['+'] + s;
    assert(signed[0] == '+');
    assert(signed.skip(1) =~= s);
    if s.len() > 0 && s[0] == '+' {
        assert(digits_of(signed)[0] == '+');
    }
}

} // verus!
