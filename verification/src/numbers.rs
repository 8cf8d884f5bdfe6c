use vstd::prelude::*;
use vstd::arithmetic::div_mod::lemma_fundamental_div_mod;
use crate::wire::{
    all_digits, dec_rep, dec_val, is_ascii_digit, parse_int, DIGIT_ZERO, MINUS_SIGN, PLUS_SIGN,
};

verus! {

/// Read one byte of a slice.
pub fn byte_at(buf: &[u8], i: usize) -> (b: u8)
    requires
        i < buf@.len(),
    ensures
        b == buf@[i as int],
{
    *vstd::slice::slice_index_get(buf, i)
}

/// Appending a digit multiplies the value by ten and adds the digit.
proof fn lemma_dec_val_push(s: Seq<u8>, b: u8)
    requires
        is_ascii_digit(b),
    ensures
        dec_val(s.push(b)) == dec_val(s) * 10 + (b - DIGIT_ZERO),
{
    assert(s.push(b).drop_last() =~= s);
    assert(s.push(b).last() == b);
}

/// A string of digits is worth at least any of its prefixes.
proof fn lemma_dec_val_prefix_le(s: Seq<u8>, i: int)
    requires
        all_digits(s),
        0 <= i <= s.len(),
    ensures
        dec_val(s.subrange(0, i)) <= dec_val(s),
    decreases s.len() - i,
{
    if i == s.len() {
        assert(s.subrange(0, i) =~= s);
    } else {
        assert(s.subrange(0, i + 1) =~= s.subrange(0, i).push(s[i]));
        lemma_dec_val_push(s.subrange(0, i), s[i]);
        lemma_dec_val_prefix_le(s, i + 1);
    }
}

/// Parse `buf[start..end]` as the wire writes signed 64-bit integers: an
/// optional sign, then decimal digits. `None` exactly where [`parse_int`]
/// has no value.
#[verifier::loop_isolation(false)]
pub fn parse_i64_range(buf: &[u8], start: usize, end: usize) -> (r: Option<i64>)
    requires
        start <= end <= buf@.len(),
    ensures
        match r {
            Some(v) => parse_int(buf@.subrange(start as int, end as int)) == Some(v as int),
            None => parse_int(buf@.subrange(start as int, end as int)) is None,
        },
{
    let ghost s = buf@.subrange(start as int, end as int);
    let mut i: usize = start;
    let mut negative: bool = false;
    if start < end {
        let b0 = byte_at(buf, start);
        if b0 == PLUS_SIGN || b0 == MINUS_SIGN {
            negative = b0 == MINUS_SIGN;
            i = start + 1;
        }
    }
    let ghost digits = buf@.subrange(i as int, end as int);
    proof {
        if s.len() > 0 && (s[0] == PLUS_SIGN || s[0] == MINUS_SIGN) {
            assert(digits =~= s.subrange(1, s.len() as int));
        } else {
            assert(digits =~= s);
        }
        assert(negative == (s.len() > 0 && s[0] == MINUS_SIGN));
    }
    if i == end {
        return None;
    }
    let mut acc: u64 = 0;
    let mut k: usize = i;
    while k < end
        invariant
            i <= k <= end,
            all_digits(buf@.subrange(i as int, k as int)),
            acc as nat == dec_val(buf@.subrange(i as int, k as int)),
        decreases end - k,
    {
        let b = byte_at(buf, k);
        let ghost prefix = buf@.subrange(i as int, k as int);
        if b < DIGIT_ZERO || b > DIGIT_ZERO + 9 {
            proof {
                assert(digits[k - i] == b);
                assert(!is_ascii_digit(digits[k - i]));
            }
            return None;
        }
        let d: u64 = (b - DIGIT_ZERO) as u64;
        let limit: u64 = (u64::MAX - d) / 10;
        proof {
            lemma_fundamental_div_mod((u64::MAX - d) as int, 10);
            assert(buf@.subrange(i as int, k + 1) =~= prefix.push(b));
            lemma_dec_val_push(prefix, b);
        }
        if acc > limit {
            proof {
                assert(acc * 10 + d > u64::MAX);
                if all_digits(digits) {
                    assert(buf@.subrange(i as int, k + 1) =~= digits.subrange(0, k + 1 - i));
                    lemma_dec_val_prefix_le(digits, k + 1 - i);
                    assert(dec_val(digits) > u64::MAX);
                }
            }
            return None;
        }
        acc = acc * 10 + d;
        k = k + 1;
    }
    proof {
        assert(all_digits(digits));
        assert(acc as nat == dec_val(digits));
        assert(digits.len() > 0);
    }
    if negative {
        if acc <= 9223372036854775808u64 {
            if acc == 9223372036854775808u64 {
                Some(i64::MIN)
            } else {
                Some(-(acc as i64))
            }
        } else {
            None
        }
    } else {
        if acc <= 9223372036854775807u64 {
            Some(acc as i64)
        } else {
            None
        }
    }
}

/// Append the decimal digits of `n`, most significant first, with no
/// leading zeros.
pub fn push_dec(out: &mut Vec<u8>, n: u64)
    ensures
        final(out)@ == old(out)@ + dec_rep(n as nat),
    decreases n,
{
    if n < 10 {
        out.push(DIGIT_ZERO + n as u8);
        proof {
            assert(out@ =~= old(out)@ + dec_rep(n as nat));
        }
    } else {
        push_dec(out, n / 10);
        out.push(DIGIT_ZERO + (n % 10) as u8);
        proof {
            assert(out@ =~= old(out)@ + dec_rep(n as nat));
        }
    }
}

} // verus!
