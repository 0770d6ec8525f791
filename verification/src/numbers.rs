//! Decimal integers: reading them as `str::parse` does, and writing them as `to_string` and
//! zero-padded formatting do.
use vstd::prelude::*;
use crate::text::{decimal, decimal_chars_wide, digit};

verus! {

/// Whether `c` is an ASCII digit.
pub open spec fn is_digit(c: char) -> bool {
    '0' <= c <= '9'
}

/// Whether `s` is made of ASCII digits only.
pub open spec fn all_digits(s: Seq<char>) -> bool {
    forall|i: int| 0 <= i < s.len() ==> is_digit(#[trigger] s[i])
}

/// The value of the digit `c`.
pub open spec fn digit_value(c: char) -> int {
    c as int - '0' as int
}

/// The value of the digits `s`, most significant first.
pub open spec fn digits_value(s: Seq<char>) -> int
    decreases s.len(),
{
    if s.len() == 0 {
        0
    } else {
        10 * digits_value(s.drop_last()) + digit_value(s.last())
    }
}

/// The integer that `s` writes: an optional `+` or `-`, then at least one digit.
pub open spec fn signed_value(s: Seq<char>) -> Option<int> {
    if s.len() > 0 && (s[0] == '+' || s[0] == '-') {
        let rest = s.drop_first();
        if rest.len() > 0 && all_digits(rest) {
            Some(if s[0] == '-' {
                -digits_value(rest)
            } else {
                digits_value(rest)
            })
        } else {
            None
        }
    } else if s.len() > 0 && all_digits(s) {
        Some(digits_value(s))
    } else {
        None
    }
}

/// The integer that `s` writes without a minus: an optional `+`, then at least one digit.
pub open spec fn unsigned_value(s: Seq<char>) -> Option<int> {
    if s.len() > 0 && s[0] == '+' {
        let rest = s.drop_first();
        if rest.len() > 0 && all_digits(rest) {
            Some(digits_value(rest))
        } else {
            None
        }
    } else if s.len() > 0 && all_digits(s) {
        Some(digits_value(s))
    } else {
        None
    }
}

/// A value of digits is never negative.
pub proof fn lemma_digits_value_nonneg(s: Seq<char>)
    requires
        all_digits(s),
    ensures
        digits_value(s) >= 0,
    decreases s.len(),
{
    if s.len() > 0 {
        lemma_digits_value_nonneg(s.drop_last());
    }
}

/// Reads the digits of `s` from `start` on, as long as the value stays at most `limit`.
/// Gives the value, or nothing where a character is no digit or the value passes `limit`.
fn digits_up_to(s: &Vec<char>, start: usize, limit: u128) -> (r: Option<u128>)
    requires
        start <= s@.len(),
        limit >= 9,
    ensures
        match r {
            Some(v) => all_digits(s@.skip(start as int)) && v == digits_value(s@.skip(
                start as int,
            )) && v <= limit,
            None => !all_digits(s@.skip(start as int)) || digits_value(s@.skip(start as int))
                > limit,
        },
{
    let ghost t = s@.skip(start as int);
    let mut value: u128 = 0;
    let mut i: usize = start;
    proof {
        assert(s@.subrange(start as int, start as int) =~= Seq::<char>::empty());
    }
    while i < s.len()
        invariant
            start <= i <= s@.len(),
            t == s@.skip(start as int),
            all_digits(s@.subrange(start as int, i as int)),
            value == digits_value(s@.subrange(start as int, i as int)),
            value <= limit,
            limit >= 9,
        decreases s@.len() - i,
    {
        let c = s[i];
        let ghost prefix = s@.subrange(start as int, i + 1);
        proof {
            assert(prefix.drop_last() =~= s@.subrange(start as int, i as int));
            assert(prefix.last() == c);
        }
        if c < '0' || c > '9' {
            proof {
                assert(t[i - start] == c);
            }
            return None;
        }
        let d = (c as u32 - '0' as u32) as u128;
        if value > (limit - d) / 10 {
            proof {
                assert(10 * value + d > limit) by (nonlinear_arith)
                    requires
                        value > (limit - d) / 10,
                        d <= 9,
                        limit >= 9,
                ;
                assert(all_digits(prefix));
                if all_digits(t) {
                    lemma_prefix_value_bound(t, (i + 1 - start) as int);
                    assert(t.take((i + 1 - start) as int) =~= prefix);
                }
            }
            return None;
        }
        assert(10 * value + d <= limit) by (nonlinear_arith)
            requires
                value <= (limit - d) / 10,
                d <= 9,
                limit >= 9,
        ;
        value = value * 10 + d;
        i = i + 1;
    }
    proof {
        assert(s@.subrange(start as int, s@.len() as int) =~= t);
    }
    Some(value)
}

/// The value of all the digits is at least the value of any prefix of them.
pub proof fn lemma_prefix_value_bound(t: Seq<char>, k: int)
    requires
        0 <= k <= t.len(),
        all_digits(t),
    ensures
        digits_value(t.take(k)) <= digits_value(t),
    decreases t.len() - k,
{
    if k < t.len() {
        lemma_prefix_value_bound(t.drop_last(), if k < t.len() { k } else { k - 1 });
        assert(t.drop_last().take(k) =~= t.take(k));
        lemma_digits_value_nonneg(t.drop_last());
        assert(all_digits(t.drop_last()));
    } else {
        assert(t.take(k) =~= t);
    }
}

/// Reads `s` as a signed 128-bit integer, as `str::parse::<i128>` does: an optional sign and
/// at least one digit, within the range of `i128`.
pub fn parse_i128(s: &Vec<char>) -> (r: Option<i128>)
    ensures
        match signed_value(s@) {
            Some(v) => if i128::MIN <= v <= i128::MAX {
                r == Some(v as i128)
            } else {
                r is None
            },
            None => r is None,
        },
{
    if s.len() == 0 {
        return None;
    }
    let negative = s[0] == '-';
    let signed = negative || s[0] == '+';
    let start: usize = if signed { 1 } else { 0 };
    if start == s.len() {
        return None;
    }
    let limit: u128 = if negative { 0x8000_0000_0000_0000_0000_0000_0000_0000u128 } else {
        0x7fff_ffff_ffff_ffff_ffff_ffff_ffff_ffffu128
    };
    proof {
        assert(s@.skip(0) =~= s@);
        assert(s@.skip(1) =~= s@.drop_first());
        if !signed {
            assert(s@.len() > 0 && !is_digit(s@[0]) ==> !all_digits(s@));
        }
    }
    match digits_up_to(s, start, limit) {
        None => None,
        Some(v) => {
            if negative {
                if v == 0x8000_0000_0000_0000_0000_0000_0000_0000u128 {
                    Some(i128::MIN)
                } else {
                    Some(-(v as i128))
                }
            } else {
                Some(v as i128)
            }
        },
    }
}

/// Reads `s` as an unsigned 64-bit integer, as `str::parse::<u64>` does: an optional `+` and
/// at least one digit, at most `u64::MAX`.
pub fn parse_u64(s: &Vec<char>) -> (r: Option<u64>)
    ensures
        match unsigned_value(s@) {
            Some(v) => if v <= u64::MAX {
                r == Some(v as u64)
            } else {
                r is None
            },
            None => r is None,
        },
{
    if s.len() == 0 {
        return None;
    }
    let start: usize = if s[0] == '+' { 1 } else { 0 };
    if start == s.len() {
        return None;
    }
    proof {
        assert(s@.skip(0) =~= s@);
        assert(s@.skip(1) =~= s@.drop_first());
    }
    match digits_up_to(s, start, 0xffff_ffff_ffff_ffffu128) {
        None => None,
        Some(v) => Some(v as u64),
    }
}

/// The decimal text of the integer `v`, with a minus where it is negative.
pub open spec fn int_text(v: int) -> Seq<char> {
    if v < 0 {
        seq!['-'] + decimal((-v) as nat)
    } else {
        decimal(v as nat)
    }
}

/// The decimal text of `v`, as `i128::to_string` writes it.
pub fn i128_text(v: i128) -> (r: Vec<char>)
    ensures
        r@ == int_text(v as int),
{
    if v < 0 {
        let magnitude: u128 = ((-(v + 1)) as u128) + 1;
        let digits = decimal_chars_wide(magnitude);
        let mut out: Vec<char> = Vec::new();
        out.push('-');
        crate::text::push_all(&mut out, digits.as_slice());
        out
    } else {
        decimal_chars_wide(v as u128)
    }
}

/// `n` in decimal, with zeros in front up to `width` characters, as `{:0width$}` writes it.
pub open spec fn padded(n: nat, width: nat) -> Seq<char> {
    let d = decimal(n);
    if d.len() >= width {
        d
    } else {
        Seq::new((width - d.len()) as nat, |i: int| '0') + d
    }
}

/// `n` in decimal, zero-padded to `width` characters.
pub fn padded_chars(n: u64, width: usize) -> (r: Vec<char>)
    ensures
        r@ == padded(n as nat, width as nat),
{
    let d = crate::text::decimal_chars(n);
    let mut out: Vec<char> = Vec::new();
    if d.len() < width {
        let fill = width - d.len();
        let mut i: usize = 0;
        while i < fill
            invariant
                i <= fill,
                out@ == Seq::new(i as nat, |j: int| '0'),
            decreases fill - i,
        {
            out.push('0');
            i = i + 1;
            assert(out@ =~= Seq::new(i as nat, |j: int| '0'));
        }
    }
    crate::text::push_all(&mut out, d.as_slice());
    assert(out@ =~= padded(n as nat, width as nat));
    out
}

} // verus!
