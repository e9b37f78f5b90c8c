//! Writing numbers and dice notations, and reading back what was written.

use vstd::prelude::*;
use crate::dice::{
    modifier_part, modifier_value, parsed, separator, sides_part, sign_at, subtracts, Dice,
};
use crate::error::Fault;
use crate::number::{all_digits, decimal_value, digit_value, is_digit};
use crate::text::{first_of, is_space, trimmed};

verus! {

/// The digit that stands for `d`, a number below ten.
pub open spec fn digit_char(d: nat) -> char {
    ((0x30 + d) as u8) as char
}

/// `n` written in base ten, without a sign and without leading zeros.
pub open spec fn decimal(n: nat) -> Seq<char>
    decreases n,
{
    if n < 10 {
        seq![digit_char(n)]
    } else {
        decimal(n / 10).push(digit_char(n % 10))
    }
}

/// What is written is read back: `decimal(n)` holds digits only, at least
/// one, and they write `n`.
pub proof fn lemma_decimal_reads_back(n: nat)
    ensures
        decimal(n).len() > 0,
        all_digits(decimal(n)),
        decimal_value(decimal(n)) == n,
    decreases n,
{
    if n < 10 {
        let s = decimal(n);
        assert(is_digit(digit_char(n)));
        assert(digit_value(digit_char(n)) == n);
        assert(s.drop_last() =~= Seq::<char>::empty());
        assert(decimal_value(s) == 10 * decimal_value(s.drop_last()) + digit_value(s.last()));
    } else {
        lemma_decimal_reads_back(n / 10);
        let front = decimal(n / 10);
        let s = decimal(n);
        assert(is_digit(digit_char(n % 10)));
        assert(digit_value(digit_char(n % 10)) == n % 10);
        assert(s.drop_last() =~= front);
        assert(all_digits(s)) by {
            assert forall|i: int| 0 <= i < s.len() implies is_digit(#[trigger] s[i]) by {
                if i < front.len() {
                    assert(s[i] == front[i]);
                }
            }
        }
    }
}

/// A digit is no white space, no separator and no sign.
proof fn lemma_digits_are_plain(s: Seq<char>)
    requires
        all_digits(s),
    ensures
        forall|i: int|
            0 <= i < s.len() ==> {
                let c = #[trigger] s[i];
                !is_space(c) && c != 'd' && c != 'D' && c != '+' && c != '-'
            },
{
    assert forall|i: int| 0 <= i < s.len() implies {
        let c = #[trigger] s[i];
        !is_space(c) && c != 'd' && c != 'D' && c != '+' && c != '-'
    } by {
        assert(is_digit(s[i]));
    }
}

/// The search passes over a beginning that holds neither character.
proof fn lemma_first_of_past(front: Seq<char>, back: Seq<char>, a: char, b: char)
    requires
        forall|i: int| 0 <= i < front.len() ==> front[i] != a && front[i] != b,
    ensures
        first_of(front + back, a, b) == front.len() + first_of(back, a, b),
    decreases front.len(),
{
    if front.len() > 0 {
        assert((front + back).drop_first() =~= front.drop_first() + back);
        lemma_first_of_past(front.drop_first(), back, a, b);
    } else {
        assert(front + back =~= back);
    }
}

/// The search ends behind a text that holds neither character.
proof fn lemma_first_of_absent(s: Seq<char>, a: char, b: char)
    requires
        forall|i: int| 0 <= i < s.len() ==> s[i] != a && s[i] != b,
    ensures
        first_of(s, a, b) == s.len(),
{
    lemma_first_of_past(s, Seq::empty(), a, b);
    assert(s + Seq::<char>::empty() =~= s);
}

/// Digits, a separator and a text without separator that ends in no white
/// space: such a notation is split at its separator.
proof fn lemma_split(head: Seq<char>, sep: char, rest: Seq<char>)
    requires
        head.len() > 0,
        all_digits(head),
        sep == 'd' || sep == 'D',
        rest.len() > 0,
        forall|i: int| 0 <= i < rest.len() ==> rest[i] != 'd' && rest[i] != 'D',
        !is_space(rest.last()),
    ensures
        ({
            let t = head + seq![sep] + rest;
            &&& trimmed(t) == t
            &&& separator(t) == Some(head.len() as int)
            &&& t.take(head.len() as int) == head
            &&& t.skip(head.len() as int + 1) == rest
        }),
{
    let t = head + seq![sep] + rest;
    let k = head.len() as int;
    lemma_digits_are_plain(head);
    assert(t[0] == head[0]);
    assert(t.last() == rest.last());
    assert(t =~= head + (seq![sep] + rest));
    lemma_first_of_past(head, seq![sep] + rest, 'd', 'D');
    assert((seq![sep] + rest)[0] == sep);
    assert(t.take(k) =~= head);
    assert(t.skip(k + 1) =~= rest);
    lemma_first_of_absent(rest, 'd', 'D');
}

/// Digits alone name the sides and leave the modifier at zero.
proof fn lemma_without_sign(digits: Seq<char>)
    requires
        all_digits(digits),
    ensures
        sides_part(digits) == digits,
        modifier_value(digits) == Some(0int),
{
    lemma_digits_are_plain(digits);
    lemma_first_of_absent(digits, '+', '+');
    lemma_first_of_absent(digits, '-', '-');
    assert(digits.take(digits.len() as int) =~= digits);
}

/// Digits, a sign and digits: the first digits name the sides, the last the
/// modifier, and the sign says whether it is subtracted.
proof fn lemma_with_sign(front: Seq<char>, sign: char, back: Seq<char>)
    requires
        all_digits(front),
        all_digits(back),
        sign == '+' || sign == '-',
    ensures
        ({
            let rest = front + seq![sign] + back;
            &&& sides_part(rest) == front
            &&& modifier_part(rest) == back
            &&& subtracts(rest) == (sign == '-')
        }),
{
    let rest = front + seq![sign] + back;
    let k = front.len() as int;
    lemma_digits_are_plain(front);
    lemma_digits_are_plain(back);
    assert(rest =~= front + (seq![sign] + back));
    assert((seq![sign] + back)[0] == sign);
    assert(rest[k] == sign);
    if sign == '+' {
        lemma_first_of_past(front, seq![sign] + back, '+', '+');
    } else {
        assert forall|i: int| 0 <= i < rest.len() implies rest[i] != '+' by {
            if i < k {
                assert(rest[i] == front[i]);
            } else if i > k {
                assert(rest[i] == back[i - k - 1]);
            }
        }
        lemma_first_of_absent(rest, '+', '+');
        lemma_first_of_past(front, seq![sign] + back, '-', '-');
    }
    assert(sign_at(rest) == k);
    assert(rest.take(k) =~= front);
    assert(rest.skip(k + 1) =~= back);
}

/// The notation of `count` dice with `sides` sides, the two numbers written
/// in base ten around a `d` in either case, reads as these dice with the
/// modifier zero.
pub proof fn lemma_plain_notation(count: nat, sides: nat, sep: char)
    requires
        1 <= count <= 255,
        1 <= sides <= 255,
        sep == 'd' || sep == 'D',
    ensures
        parsed(decimal(count) + seq![sep] + decimal(sides)) == Ok::<Dice, Fault>(
            Dice { sides: sides as u8, count: count as u8, modifier: 0 },
        ),
{
    let head = decimal(count);
    let rest = decimal(sides);
    lemma_decimal_reads_back(count);
    lemma_decimal_reads_back(sides);
    lemma_digits_are_plain(head);
    lemma_digits_are_plain(rest);
    lemma_split(head, sep, rest);
    lemma_without_sign(rest);
}

/// The same notation followed by `+` and a number `m` that fits in 32 bits
/// reads as these dice with the modifier `m`.
pub proof fn lemma_notation_with_plus(count: nat, sides: nat, m: nat, sep: char)
    requires
        1 <= count <= 255,
        1 <= sides <= 255,
        m <= i32::MAX,
        sep == 'd' || sep == 'D',
    ensures
        parsed(decimal(count) + seq![sep] + decimal(sides) + seq!['+'] + decimal(m)) == Ok::<
            Dice,
            Fault,
        >(Dice { sides: sides as u8, count: count as u8, modifier: m as i32 }),
{
    lemma_signed_notation(count, sides, '+', m, sep);
    assert(decimal(count) + seq![sep] + decimal(sides) + seq!['+'] + decimal(m) =~= decimal(count)
        + seq![sep] + (decimal(sides) + seq!['+'] + decimal(m)));
}

/// The same notation followed by `-` and a number `m` that fits in 32 bits
/// reads as these dice with the modifier `-m`.
pub proof fn lemma_notation_with_minus(count: nat, sides: nat, m: nat, sep: char)
    requires
        1 <= count <= 255,
        1 <= sides <= 255,
        m <= i32::MAX,
        sep == 'd' || sep == 'D',
    ensures
        parsed(decimal(count) + seq![sep] + decimal(sides) + seq!['-'] + decimal(m)) == Ok::<
            Dice,
            Fault,
        >(Dice { sides: sides as u8, count: count as u8, modifier: (-m) as i32 }),
{
    lemma_signed_notation(count, sides, '-', m, sep);
    assert(decimal(count) + seq![sep] + decimal(sides) + seq!['-'] + decimal(m) =~= decimal(count)
        + seq![sep] + (decimal(sides) + seq!['-'] + decimal(m)));
}

/// The two laws above in one: the sign decides whether `m` is added or
/// subtracted.
proof fn lemma_signed_notation(count: nat, sides: nat, sign: char, m: nat, sep: char)
    requires
        1 <= count <= 255,
        1 <= sides <= 255,
        m <= i32::MAX,
        sign == '+' || sign == '-',
        sep == 'd' || sep == 'D',
    ensures
        parsed(decimal(count) + seq![sep] + (decimal(sides) + seq![sign] + decimal(m))) == Ok::<
            Dice,
            Fault,
        >(
            Dice {
                sides: sides as u8,
                count: count as u8,
                modifier: if sign == '-' {
                    (-m) as i32
                } else {
                    m as i32
                },
            },
        ),
{
    let head = decimal(count);
    let front = decimal(sides);
    let back = decimal(m);
    let rest = front + seq![sign] + back;
    lemma_decimal_reads_back(count);
    lemma_decimal_reads_back(sides);
    lemma_decimal_reads_back(m);
    lemma_digits_are_plain(head);
    lemma_digits_are_plain(front);
    lemma_digits_are_plain(back);
    assert forall|i: int| 0 <= i < rest.len() implies rest[i] != 'd' && rest[i] != 'D' by {
        if i < front.len() {
            assert(rest[i] == front[i]);
        } else if i > front.len() {
            assert(rest[i] == back[i - front.len() - 1]);
        }
    }
    assert(rest.last() == back.last());
    lemma_split(head, sep, rest);
    lemma_with_sign(front, sign, back);
}

} // verus!
