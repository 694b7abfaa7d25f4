//! Decoding of the raw inputs the tool is fed: target-address literals
//! (hexadecimal with a `0x` prefix, or decimal) and the 4-byte
//! little-endian word reported by the initial probe.

use vstd::prelude::*;

verus! {

/// `b` is an ASCII decimal digit.
pub open spec fn is_dec_digit(b: u8) -> bool {
    0x30 <= b <= 0x39
}

/// `b` is an ASCII hexadecimal digit (either case).
pub open spec fn is_hex_digit(b: u8) -> bool {
    is_dec_digit(b) || 0x61 <= b <= 0x66 || 0x41 <= b <= 0x46
}

/// `b` is a digit of the given base (10 or 16).
pub open spec fn is_digit(b: u8, base: int) -> bool {
    if base == 16 {
        is_hex_digit(b)
    } else {
        is_dec_digit(b)
    }
}

/// The numeric value of a digit byte.
pub open spec fn digit_value(b: u8) -> int {
    if is_dec_digit(b) {
        b - 0x30
    } else if 0x61 <= b <= 0x66 {
        b - 0x61 + 10
    } else {
        b - 0x41 + 10
    }
}

/// Every byte of `s` is a digit of the base.
pub open spec fn all_digits(s: Seq<u8>, base: int) -> bool {
    forall|i: int| 0 <= i < s.len() ==> is_digit(#[trigger] s[i], base)
}

/// The number the digit string denotes, most significant digit first.
pub open spec fn digits_value(s: Seq<u8>, base: int) -> int
    decreases s.len(),
{
    if s.len() == 0 {
        0
    } else {
        digits_value(s.drop_last(), base) * base + digit_value(s.last())
    }
}

/// The address a digit string denotes: `None` for an empty string, a
/// malformed digit, or a value that does not fit a 64-bit address.
pub open spec fn digits_to_address(s: Seq<u8>, base: int) -> Option<u64> {
    if s.len() == 0 || !all_digits(s, base) || digits_value(s, base) > u64::MAX {
        None
    } else {
        Some(digits_value(s, base) as u64)
    }
}

/// The address a command-line literal denotes: hexadecimal digits after
/// a `0x` prefix, decimal digits otherwise.
pub open spec fn address_of_literal(s: Seq<u8>) -> Option<u64> {
    if s.len() >= 2 && s[0] == 0x30u8 && s[1] == 0x78u8 {
        digits_to_address(s.skip(2), 16)
    } else {
        digits_to_address(s, 10)
    }
}

/// A digit string of digits only denotes a non-negative number.
proof fn lemma_digits_value_nonneg(s: Seq<u8>, base: int)
    requires
        base >= 2,
        all_digits(s, base),
    ensures
        digits_value(s, base) >= 0,
    decreases s.len(),
{
    if s.len() > 0 {
        assert(all_digits(s.drop_last(), base));
        lemma_digits_value_nonneg(s.drop_last(), base);
        assert(digits_value(s.drop_last(), base) * base >= 0) by (nonlinear_arith)
            requires
                digits_value(s.drop_last(), base) >= 0,
                base >= 2,
        ;
        assert(digit_value(s.last()) >= 0);
    }
}

/// Reading further digits never shrinks the denoted number.
proof fn lemma_digits_value_extend(s: Seq<u8>, base: int, i: int)
    requires
        base >= 2,
        all_digits(s, base),
        0 <= i <= s.len(),
    ensures
        digits_value(s, base) >= digits_value(s.take(i), base),
    decreases s.len() - i,
{
    if i == s.len() {
        assert(s.take(i) =~= s);
    } else {
        lemma_digits_value_extend(s, base, i + 1);
        assert(s.take(i + 1).drop_last() =~= s.take(i));
        assert(s.take(i + 1).last() == s[i]);
        assert(all_digits(s.take(i), base));
        lemma_digits_value_nonneg(s.take(i), base);
        let prefix = digits_value(s.take(i), base);
        assert(prefix * base >= prefix) by (nonlinear_arith)
            requires
                prefix >= 0,
                base >= 2,
        ;
        assert(digit_value(s[i]) >= 0);
    }
}

/// The digits of `s` from position `from` on, read in the given base, as
/// an address; `None` when empty, malformed, or out of range.
fn parse_digits(s: &Vec<u8>, from: usize, base: u64) -> (r: Option<u64>)
    requires
        from <= s@.len(),
        base == 10 || base == 16,
    ensures
        r == digits_to_address(s@.skip(from as int), base as int),
{
    let ghost ds = s@.skip(from as int);
    let n = s.len();
    if from == n {
        return None;
    }
    let mut acc: u64 = 0;
    let mut i: usize = from;
    while i < n
        invariant
            from <= i <= n,
            n == s@.len(),
            base == 10 || base == 16,
            ds == s@.skip(from as int),
            all_digits(ds.take(i - from), base as int),
            acc == digits_value(ds.take(i - from), base as int),
        decreases n - i,
    {
        let b = s[i];
        let d: u64 = if b >= 0x30 && b <= 0x39 {
            (b - 0x30) as u64
        } else if base == 16 && b >= 0x61 && b <= 0x66 {
            (b - 0x61 + 10) as u64
        } else if base == 16 && b >= 0x41 && b <= 0x46 {
            (b - 0x41 + 10) as u64
        } else {
            proof {
                assert(ds[i - from] == s@[i as int]);
                assert(!is_digit(ds[i - from], base as int));
                assert(!all_digits(ds, base as int));
            }
            return None;
        };
        let wide: u128 = (acc as u128) * (base as u128) + (d as u128);
        proof {
            assert(ds.take(i - from + 1).drop_last() =~= ds.take(i - from));
            assert(ds.take(i - from + 1).last() == s@[i as int]);
            assert(digit_value(s@[i as int]) == d);
            assert(all_digits(ds.take(i - from + 1), base as int));
            assert(digits_value(ds.take(i - from + 1), base as int) == acc * base + d);
        }
        if wide > u64::MAX as u128 {
            proof {
                // either a later byte is junk, or the whole string's value
                // overflows an address: the literal is rejected either way
                if all_digits(ds, base as int) {
                    lemma_digits_value_extend(ds, base as int, i - from + 1);
                    assert(digits_value(ds, base as int) > u64::MAX);
                }
            }
            return None;
        }
        acc = wide as u64;
        i = i + 1;
    }
    proof {
        assert(ds.take(n - from) =~= ds);
        lemma_digits_value_nonneg(ds, base as int);
    }
    Some(acc)
}

/// The address a command-line literal denotes: a `0x`-prefixed string is
/// read as hexadecimal, anything else as decimal. `None` when the digit
/// string is empty or malformed or the value does not fit an address.
pub fn parse_address(s: &Vec<u8>) -> (r: Option<u64>)
    ensures
        r == address_of_literal(s@),
{
    if s.len() >= 2 && s[0] == 0x30 && s[1] == 0x78 {
        parse_digits(s, 2, 16)
    } else {
        proof {
            assert(s@.skip(0) =~= s@);
        }
        parse_digits(s, 0, 10)
    }
}

/// The value of four bytes read as one little-endian 32-bit word.
pub open spec fn le32_value(b: Seq<u8>) -> int {
    b[0] + b[1] * 0x100 + b[2] * 0x10000 + b[3] * 0x1000000
}

/// The little-endian 32-bit word the four probe bytes spell.
pub fn word32_from_le(b: &Vec<u8>) -> (r: u32)
    requires
        b@.len() == 4,
    ensures
        r == le32_value(b@),
{
    (b[0] as u32) + (b[1] as u32) * 0x100 + (b[2] as u32) * 0x10000 + (b[3] as u32) * 0x1000000
}

} // verus!
