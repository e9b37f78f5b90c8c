//! What a dice notation may vary in without a change of meaning: the white
//! space around it and the case of its letters.

use vstd::prelude::*;
use crate::dice::{
    modifier_part, modifier_value, parsed, sides_part, sign_at, subtracts, Dice,
};
use crate::error::Fault;
use crate::number::{
    all_digits, decimal_value, digit_value, is_digit, signed_value, unsigned_value,
};
use crate::text::{first_of, is_space, trim_end, trim_start, trimmed};

verus! {

/// Whether `s` holds white space only.
pub open spec fn all_space(s: Seq<char>) -> bool {
    forall|i: int| 0 <= i < s.len() ==> is_space(#[trigger] s[i])
}

/// The small letter of a capital ASCII letter; any other character itself.
pub open spec fn lower(c: char) -> char {
    if 0x41 <= c as u32 <= 0x5A {
        ((c as u32 + 0x20) as u8) as char
    } else {
        c
    }
}

/// `s` with each capital ASCII letter made small.
pub open spec fn lowered(s: Seq<char>) -> Seq<char> {
    Seq::new(s.len(), |i: int| lower(s[i]))
}

/// White space in front of a text is trimmed away.
proof fn lemma_trim_start_padding(before: Seq<char>, s: Seq<char>)
    requires
        all_space(before),
    ensures
        trim_start(before + s) == trim_start(s),
    decreases before.len(),
{
    if before.len() > 0 {
        assert((before + s)[0] == before[0]);
        assert((before + s).drop_first() =~= before.drop_first() + s);
        assert(all_space(before.drop_first())) by {
            assert forall|i: int| 0 <= i < before.drop_first().len() implies is_space(
                #[trigger] before.drop_first()[i],
            ) by {
                assert(before.drop_first()[i] == before[i + 1]);
            }
        }
        lemma_trim_start_padding(before.drop_first(), s);
    } else {
        assert(before + s =~= s);
    }
}

/// White space behind a text is trimmed away.
proof fn lemma_trim_end_padding(s: Seq<char>, after: Seq<char>)
    requires
        all_space(after),
    ensures
        trim_end(s + after) == trim_end(s),
    decreases after.len(),
{
    if after.len() > 0 {
        assert((s + after).last() == after.last());
        assert((s + after).drop_last() =~= s + after.drop_last());
        assert(all_space(after.drop_last())) by {
            assert forall|i: int| 0 <= i < after.drop_last().len() implies is_space(
                #[trigger] after.drop_last()[i],
            ) by {
                assert(after.drop_last()[i] == after[i]);
            }
        }
        lemma_trim_end_padding(s, after.drop_last());
    } else {
        assert(s + after =~= s);
    }
}

/// White space behind a text does not change what is left of it after
/// trimming.
proof fn lemma_trimmed_padding_behind(s: Seq<char>, after: Seq<char>)
    requires
        all_space(after),
    ensures
        trimmed(s + after) == trimmed(s),
    decreases s.len(),
{
    if s.len() == 0 {
        lemma_trim_start_padding(after, Seq::empty());
        assert(after + Seq::<char>::empty() =~= after);
        assert(s + after =~= after);
    } else if is_space(s[0]) {
        assert((s + after)[0] == s[0]);
        assert((s + after).drop_first() =~= s.drop_first() + after);
        lemma_trimmed_padding_behind(s.drop_first(), after);
    } else {
        assert((s + after)[0] == s[0]);
        lemma_trim_end_padding(s, after);
    }
}

/// White space around a notation does not count: the notation reads as it
/// does without, dice for dice and fault for fault, but that a fault
/// carries the notation as it was given.
pub proof fn lemma_padding_does_not_count(before: Seq<char>, s: Seq<char>, after: Seq<char>)
    requires
        all_space(before),
        all_space(after),
    ensures
        trimmed(before + s + after) == trimmed(s),
        parsed(before + s + after) == match parsed(s) {
            Ok(dice) => Ok::<Dice, Fault>(dice),
            Err(fault) => Err(
                Fault { kind: fault.kind, input: before + s + after, part: fault.part },
            ),
        },
{
    assert(before + s + after =~= before + (s + after));
    lemma_trim_start_padding(before, s + after);
    lemma_trimmed_padding_behind(s, after);
}

/// What the letters' case leaves alone: white space, digits, signs, and
/// whether a character is the separator.
proof fn lemma_lower_keeps(c: char)
    ensures
        is_space(lower(c)) == is_space(c),
        is_digit(lower(c)) == is_digit(c),
        digit_value(lower(c)) == digit_value(c),
        (lower(c) == 'd' || lower(c) == 'D') == (c == 'd' || c == 'D'),
        (lower(c) == '+') == (c == '+'),
        (lower(c) == '-') == (c == '-'),
{
}

/// Making letters small and trimming in front can be done in either order.
proof fn lemma_lowered_trim_start(s: Seq<char>)
    ensures
        trim_start(lowered(s)) == lowered(trim_start(s)),
    decreases s.len(),
{
    if s.len() > 0 {
        lemma_lower_keeps(s[0]);
        if is_space(s[0]) {
            assert(lowered(s).drop_first() =~= lowered(s.drop_first()));
            lemma_lowered_trim_start(s.drop_first());
        }
    }
}

/// Making letters small and trimming behind can be done in either order.
proof fn lemma_lowered_trim_end(s: Seq<char>)
    ensures
        trim_end(lowered(s)) == lowered(trim_end(s)),
    decreases s.len(),
{
    if s.len() > 0 {
        lemma_lower_keeps(s.last());
        if is_space(s.last()) {
            assert(lowered(s).drop_last() =~= lowered(s.drop_last()));
            lemma_lowered_trim_end(s.drop_last());
        }
    }
}

/// A separator or a sign is found at the same place whatever the letters'
/// case.
proof fn lemma_lowered_first_of(s: Seq<char>, a: char, b: char)
    requires
        (a == 'd' && b == 'D') || (a == b && (a == '+' || a == '-')),
    ensures
        first_of(lowered(s), a, b) == first_of(s, a, b),
    decreases s.len(),
{
    if s.len() > 0 {
        lemma_lower_keeps(s[0]);
        if !(s[0] == a || s[0] == b) {
            assert(lowered(s).drop_first() =~= lowered(s.drop_first()));
            lemma_lowered_first_of(s.drop_first(), a, b);
        }
    }
}

/// Digits write the same number whatever the case of the letters around
/// them.
proof fn lemma_lowered_decimal(s: Seq<char>)
    ensures
        all_digits(lowered(s)) == all_digits(s),
        decimal_value(lowered(s)) == decimal_value(s),
    decreases s.len(),
{
    if s.len() > 0 {
        lemma_lower_keeps(s.last());
        assert(lowered(s).drop_last() =~= lowered(s.drop_last()));
        lemma_lowered_decimal(s.drop_last());
    }
    if all_digits(s) {
        assert forall|i: int| 0 <= i < s.len() implies is_digit(#[trigger] lowered(s)[i]) by {
            lemma_lower_keeps(s[i]);
            assert(is_digit(s[i]));
        }
    }
    if all_digits(lowered(s)) {
        assert forall|i: int| 0 <= i < s.len() implies is_digit(#[trigger] s[i]) by {
            lemma_lower_keeps(s[i]);
            assert(is_digit(lowered(s)[i]));
        }
    }
}

/// A text is read as the same number, or as none, whatever its letters'
/// case.
proof fn lemma_lowered_numbers(s: Seq<char>, max: nat, low: int, high: int)
    ensures
        unsigned_value(lowered(s), max) == unsigned_value(s, max),
        signed_value(lowered(s), low, high) == signed_value(s, low, high),
{
    lemma_lowered_decimal(s);
    if s.len() > 0 {
        lemma_lower_keeps(s[0]);
        assert(lowered(s).drop_first() =~= lowered(s.drop_first()));
        lemma_lowered_decimal(s.drop_first());
    }
}

/// The fields after the separator are found at the same places whatever the
/// letters' case.
proof fn lemma_lowered_rest(rest: Seq<char>)
    ensures
        sign_at(lowered(rest)) == sign_at(rest),
        0 <= sign_at(rest) <= rest.len(),
        sides_part(lowered(rest)) == lowered(sides_part(rest)),
        modifier_part(lowered(rest)) == lowered(modifier_part(rest)),
        subtracts(lowered(rest)) == subtracts(rest),
        modifier_value(lowered(rest)) == modifier_value(rest),
{
    lemma_lowered_first_of(rest, '+', '+');
    lemma_lowered_first_of(rest, '-', '-');
    lemma_first_of_bounds(rest, '+', '+');
    lemma_first_of_bounds(rest, '-', '-');
    let k = sign_at(rest);
    assert(lowered(rest).take(k) =~= lowered(rest.take(k)));
    if k < rest.len() {
        lemma_lower_keeps(rest[k]);
        assert(lowered(rest).skip(k + 1) =~= lowered(rest.skip(k + 1)));
    } else {
        assert(lowered(Seq::<char>::empty()) =~= Seq::<char>::empty());
    }
    lemma_lowered_numbers(modifier_part(rest), 0, i32::MIN as int, i32::MAX as int);
}

/// A search ends inside the text or just behind it.
proof fn lemma_first_of_bounds(s: Seq<char>, a: char, b: char)
    ensures
        0 <= first_of(s, a, b) <= s.len(),
    decreases s.len(),
{
    if s.len() > 0 && s[0] != a && s[0] != b {
        lemma_first_of_bounds(s.drop_first(), a, b);
    }
}

/// The case of the letters does not count: with its capital letters made
/// small a notation reads as the same dice, or fails in the same field.
pub proof fn lemma_case_does_not_count(s: Seq<char>)
    ensures
        parsed(lowered(s)) == match parsed(s) {
            Ok(dice) => Ok::<Dice, Fault>(dice),
            Err(fault) => Err(
                Fault { kind: fault.kind, input: lowered(s), part: lowered(fault.part) },
            ),
        },
{
    let t = trimmed(s);
    lemma_lowered_trim_start(s);
    lemma_lowered_trim_end(trim_start(s));
    assert(trimmed(lowered(s)) == lowered(t));
    lemma_lowered_first_of(t, 'd', 'D');
    lemma_first_of_bounds(t, 'd', 'D');
    let k = first_of(t, 'd', 'D');
    if k < t.len() {
        let rest = t.skip(k + 1);
        let head = t.take(k);
        assert(lowered(t).skip(k + 1) =~= lowered(rest));
        assert(lowered(t).take(k) =~= lowered(head));
        lemma_lowered_first_of(rest, 'd', 'D');
        lemma_lowered_numbers(head, 255, 0, 0);
        lemma_lowered_rest(rest);
        lemma_lowered_numbers(sides_part(rest), 255, 0, 0);
    }
}

} // verus!
