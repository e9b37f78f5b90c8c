//! Decimal numbers as they stand in a dice notation: ASCII digits, with an
//! optional sign in front.

use vstd::prelude::*;

verus! {

/// Whether `c` is one of the ASCII digits `0` to `9`.
pub open spec fn is_digit(c: char) -> bool {
    0x30 <= c as u32 <= 0x39
}

/// The number a digit stands for; `0` for any other character.
pub open spec fn digit_value(c: char) -> nat {
    if is_digit(c) {
        (c as u32 - 0x30) as nat
    } else {
        0
    }
}

/// Whether `s` holds digits only.
pub open spec fn all_digits(s: Seq<char>) -> bool {
    forall|i: int| 0 <= i < s.len() ==> is_digit(#[trigger] s[i])
}

/// The number that the digits of `s` write in base ten, the last digit
/// counting least. The empty sequence writes `0`.
pub open spec fn decimal_value(s: Seq<char>) -> nat
    decreases s.len(),
{
    if s.len() == 0 {
        0
    } else {
        10 * decimal_value(s.drop_last()) + digit_value(s.last())
    }
}

/// The number that `s` writes, where `s` holds digits only and the number
/// is at most `limit`.
pub open spec fn bounded_decimal(s: Seq<char>, limit: nat) -> Option<nat> {
    if all_digits(s) && decimal_value(s) <= limit {
        Some(decimal_value(s))
    } else {
        None
    }
}

/// Whether `s` starts with the character `c`.
pub open spec fn starts_with(s: Seq<char>, c: char) -> bool {
    s.len() > 0 && s[0] == c
}

/// The value of an unsigned number: an optional `+`, then at least one
/// digit, writing a number of at most `max`.
pub open spec fn unsigned_value(s: Seq<char>, max: nat) -> Option<nat> {
    let digits = if starts_with(s, '+') {
        s.drop_first()
    } else {
        s
    };
    if digits.len() > 0 {
        bounded_decimal(digits, max)
    } else {
        None
    }
}

/// The value of a signed number: an optional `+` or `-`, then at least one
/// digit, writing a number from `min` to `max`.
pub open spec fn signed_value(s: Seq<char>, min: int, max: int) -> Option<int> {
    let digits = if starts_with(s, '+') || starts_with(s, '-') {
        s.drop_first()
    } else {
        s
    };
    let value = if starts_with(s, '-') {
        -(decimal_value(digits) as int)
    } else {
        decimal_value(digits) as int
    };
    if digits.len() > 0 && all_digits(digits) && min <= value <= max {
        Some(value)
    } else {
        None
    }
}

/// A longer run of characters never writes a smaller number than its
/// beginning does.
pub proof fn lemma_decimal_value_grows(s: Seq<char>, k: int)
    requires
        0 <= k <= s.len(),
    ensures
        decimal_value(s.take(k)) <= decimal_value(s),
    decreases s.len() - k,
{
    if k < s.len() {
        lemma_decimal_value_grows(s, k + 1);
        assert(s.take(k + 1).drop_last() == s.take(k));
    } else {
        assert(s.take(k) == s);
    }
}

/// Reads the digits `chars[from..to]` as a number of at most `limit`.
pub fn read_digits(chars: &Vec<char>, from: usize, to: usize, limit: u64) -> (value: Option<u64>)
    requires
        from <= to <= chars.len(),
        limit <= 0xFFFF_FFFF,
    ensures
        value.is_some() == bounded_decimal(chars@.subrange(from as int, to as int), limit as nat).is_some(),
        value.is_some() ==> value.unwrap() == bounded_decimal(
            chars@.subrange(from as int, to as int),
            limit as nat,
        ).unwrap(),
{
    let ghost s = chars@.subrange(from as int, to as int);
    let mut acc: u64 = 0;
    let mut i: usize = from;
    assert(s.take(0).len() == 0);
    while i < to
        invariant
            from <= i <= to <= chars.len(),
            limit <= 0xFFFF_FFFF,
            s == chars@.subrange(from as int, to as int),
            all_digits(s.take(i - from)),
            acc == decimal_value(s.take(i - from)),
            acc <= limit,
        decreases to - i,
    {
        let c: char = chars[i];
        let n: u32 = c as u32;
        assert(s[i - from] == c);
        if n < 0x30 || n > 0x39 {
            return None;
        }
        let ghost prefix = s.take(i - from + 1);
        assert(prefix.drop_last() == s.take(i - from));
        assert(prefix.last() == c);
        acc = acc * 10 + (n - 0x30) as u64;
        assert(acc == decimal_value(prefix));
        if acc > limit {
            proof {
                lemma_decimal_value_grows(s, i - from + 1);
            }
            return None;
        }
        assert(all_digits(prefix)) by {
            assert forall|j: int| 0 <= j < prefix.len() implies is_digit(#[trigger] prefix[j]) by {
                if j < i - from {
                    assert(prefix[j] == s.take(i - from)[j]);
                }
            }
        }
        i = i + 1;
    }
    assert(s.take(to - from) == s);
    Some(acc)
}

/// Reads `chars[from..to]` as an unsigned number of at most 255.
pub fn read_u8(chars: &Vec<char>, from: usize, to: usize) -> (value: Option<u8>)
    requires
        from <= to <= chars.len(),
    ensures
        match value {
            Some(v) => unsigned_value(chars@.subrange(from as int, to as int), 255) == Some(
                v as nat,
            ),
            None => unsigned_value(chars@.subrange(from as int, to as int), 255).is_none(),
        },
{
    let ghost s = chars@.subrange(from as int, to as int);
    let start: usize = if from < to && chars[from] == '+' {
        from + 1
    } else {
        from
    };
    assert(from < to ==> s[0] == chars[from as int]);
    assert(start > from ==> s.drop_first() == chars@.subrange(start as int, to as int));
    if start == to {
        return None;
    }
    match read_digits(chars, start, to, 255) {
        Some(v) => Some(v as u8),
        None => None,
    }
}

/// Reads `chars[from..to]` as a signed number that fits in 32 bits.
pub fn read_i32(chars: &Vec<char>, from: usize, to: usize) -> (value: Option<i32>)
    requires
        from <= to <= chars.len(),
    ensures
        match value {
            Some(v) => signed_value(
                chars@.subrange(from as int, to as int),
                i32::MIN as int,
                i32::MAX as int,
            ) == Some(v as int),
            None => signed_value(
                chars@.subrange(from as int, to as int),
                i32::MIN as int,
                i32::MAX as int,
            ).is_none(),
        },
{
    let ghost s = chars@.subrange(from as int, to as int);
    let negative: bool = from < to && chars[from] == '-';
    let start: usize = if from < to && (chars[from] == '+' || chars[from] == '-') {
        from + 1
    } else {
        from
    };
    assert(from < to ==> s[0] == chars[from as int]);
    assert(start > from ==> s.drop_first() == chars@.subrange(start as int, to as int));
    if start == to {
        return None;
    }
    let limit: u64 = if negative {
        0x8000_0000
    } else {
        0x7FFF_FFFF
    };
    match read_digits(chars, start, to, limit) {
        Some(v) => {
            if negative {
                Some((-(v as i64)) as i32)
            } else {
                Some(v as i32)
            }
        },
        None => None,
    }
}

} // verus!
