//! Reading unsigned numbers that are written in the digits of a radix.

use vstd::prelude::*;

verus! {

/// The value of `c` as a digit, whatever the radix: the digits `0` to `9`
/// count from zero, the letters `a` to `z`, small or capital, from ten.
pub open spec fn digit_value(c: char) -> Option<nat> {
    if '0' <= c <= '9' {
        Some(((c as int) - ('0' as int)) as nat)
    } else if 'a' <= c <= 'z' {
        Some(((c as int) - ('a' as int) + 10) as nat)
    } else if 'A' <= c <= 'Z' {
        Some(((c as int) - ('A' as int) + 10) as nat)
    } else {
        None
    }
}

/// The value of `c` as a digit in the given radix.
pub open spec fn digit_of(c: char, radix: nat) -> Option<nat> {
    match digit_value(c) {
        Some(value) => if value < radix {
            Some(value)
        } else {
            None
        },
        None => None,
    }
}

/// The value of a run of digits, the first one the most significant; `None`
/// where a character is not a digit of the radix.
pub open spec fn digits_value(digits: Seq<char>, radix: nat) -> Option<nat>
    decreases digits.len(),
{
    if digits.len() == 0 {
        Some(0)
    } else {
        match (digits_value(digits.drop_last(), radix), digit_of(digits.last(), radix)) {
            (Some(high), Some(low)) => Some(high * radix + low),
            _ => None,
        }
    }
}

/// The number that `text` writes: an optional `+`, then at least one digit
/// and nothing but digits.
pub open spec fn unsigned_value(text: Seq<char>, radix: nat) -> Option<nat> {
    let digits = if text.len() > 0 && text[0] == '+' {
        text.skip(1)
    } else {
        text
    };
    if digits.len() == 0 {
        None
    } else {
        digits_value(digits, radix)
    }
}

/// The number that `text` writes, where it is at most `max`.
pub open spec fn bounded_value(text: Seq<char>, radix: nat, max: nat) -> Option<nat> {
    match unsigned_value(text, radix) {
        Some(value) => if value <= max {
            Some(value)
        } else {
            None
        },
        None => None,
    }
}

/// A run of digits is worth at least as much as each of its beginnings.
proof fn lemma_digits_grow(digits: Seq<char>, radix: nat, k: int)
    requires
        0 <= k <= digits.len(),
        radix >= 1,
        digits_value(digits, radix) is Some,
    ensures
        digits_value(digits.take(k), radix) is Some,
        digits_value(digits.take(k), radix)->0 <= digits_value(digits, radix)->0,
    decreases digits.len(),
{
    if k == digits.len() {
        assert(digits.take(k) == digits);
    } else {
        let init = digits.drop_last();
        assert(init.take(k) == digits.take(k));
        lemma_digits_grow(init, radix, k);
        let high = digits_value(init, radix)->0;
        assert(high * radix >= high) by (nonlinear_arith)
            requires
                radix >= 1,
        ;
    }
}

/// A run of digits with a beginning that is no number is no number.
proof fn lemma_digits_fail(digits: Seq<char>, radix: nat, k: int)
    requires
        0 <= k <= digits.len(),
        digits_value(digits.take(k), radix) is None,
    ensures
        digits_value(digits, radix) is None,
    decreases digits.len(),
{
    if k == digits.len() {
        assert(digits.take(k) == digits);
    } else {
        let init = digits.drop_last();
        assert(init.take(k) == digits.take(k));
        lemma_digits_fail(init, radix, k);
    }
}

/// Reads `text` as a number in the given radix, as `from_str_radix` of the
/// unsigned integer types reads it: `None` where `text` is no number, or one
/// greater than `max`.
pub fn parse_unsigned(text: &[char], radix: u8, max: u64) -> (value: Option<u64>)
    requires
        2 <= radix <= 36,
    ensures
        value == match bounded_value(text@, radix as nat, max as nat) {
            Some(v) => Some(v as u64),
            None => None::<u64>,
        },
{
    let start: usize = if text.len() > 0 && text[0] == '+' {
        1
    } else {
        0
    };
    if start >= text.len() {
        return None;
    }
    let ghost digits = text@.skip(start as int);
    proof {
        assert(text@.skip(0) == text@);
    }
    let mut total: u64 = 0;
    let mut i: usize = start;
    while i < text.len()
        invariant
            start <= i <= text.len(),
            2 <= radix <= 36,
            digits == text@.skip(start as int),
            digits == (if text@.len() > 0 && text@[0] == '+' {
                text@.skip(1)
            } else {
                text@
            }),
            digits_value(digits.take(i - start), radix as nat) == Some(total as nat),
            total <= max,
        decreases text.len() - i,
    {
        let c = text[i];
        proof {
            assert(digits.take(i - start + 1).drop_last() == digits.take(i - start));
            assert(digits.take(i - start + 1).last() == c);
        }
        let low: u8 = if '0' <= c && c <= '9' {
            (c as u8) - ('0' as u8)
        } else if 'a' <= c && c <= 'z' {
            (c as u8) - ('a' as u8) + 10
        } else if 'A' <= c && c <= 'Z' {
            (c as u8) - ('A' as u8) + 10
        } else {
            proof {
                lemma_digits_fail(digits, radix as nat, i - start + 1);
            }
            return None;
        };
        if low >= radix {
            proof {
                lemma_digits_fail(digits, radix as nat, i - start + 1);
            }
            return None;
        }
        assert(total * radix <= u64::MAX * 36) by (nonlinear_arith)
            requires
                total <= u64::MAX,
                radix <= 36,
        ;
        let wide: u128 = (total as u128) * (radix as u128) + (low as u128);
        if wide > max as u128 {
            proof {
                if digits_value(digits, radix as nat) is Some {
                    lemma_digits_grow(digits, radix as nat, i - start + 1);
                }
            }
            return None;
        }
        total = wide as u64;
        i += 1;
    }
    proof {
        assert(digits.take(i - start) == digits);
    }
    Some(total)
}

} // verus!
