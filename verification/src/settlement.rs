//! Settlement proof validation: the structural shape of the proof tuple,
//! the decimal public inputs, and the order identifier embedded in them.
//!
//! Public inputs are decimal strings of field elements; the order identifier
//! is carried as two 64-bit limbs, the low one at index 16 and the high one
//! at index 17.

use vstd::prelude::*;
use vstd::string::StrSliceExecFns;
use crate::error::ErrorCode;

verus! {

/// Index of the order identifier's low limb among the public inputs.
pub const ORDER_ID_LOW_INDEX: usize = 16;

/// Index of the order identifier's high limb among the public inputs.
pub const ORDER_ID_HIGH_INDEX: usize = 17;

/// Fewest public inputs a settlement proof carries.
pub const MIN_PUBLIC_INPUTS: usize = 18;

/// Every character is an ASCII decimal digit.
pub open spec fn all_digit_chars(s: Seq<char>) -> bool {
    forall|i: int| 0 <= i < s.len() ==> 48 <= (#[trigger] s[i]) as u32 <= 57
}

/// Numeric value of a sequence of decimal digits, most significant first.
pub open spec fn dec_value(s: Seq<char>) -> int
    decreases s.len(),
{
    if s.len() == 0 {
        0
    } else {
        dec_value(s.drop_last()) * 10 + (s.last() as u32 - 48)
    }
}

/// A digit string's value is never negative.
pub proof fn lemma_dec_value_nonneg(s: Seq<char>)
    requires
        all_digit_chars(s),
    ensures
        dec_value(s) >= 0,
    decreases s.len(),
{
    if s.len() > 0 {
        assert(all_digit_chars(s.drop_last()));
        lemma_dec_value_nonneg(s.drop_last());
    }
}

/// A prefix of a digit string never exceeds the whole string's value.
pub proof fn lemma_dec_value_prefix_le(s: Seq<char>, j: int)
    requires
        all_digit_chars(s),
        0 <= j <= s.len(),
    ensures
        dec_value(s.take(j)) <= dec_value(s),
    decreases s.len() - j,
{
    if j < s.len() {
        lemma_dec_value_prefix_le(s, j + 1);
        assert(s.take(j + 1).drop_last() =~= s.take(j));
        assert(s.take(j + 1).last() == s[j]);
        assert(all_digit_chars(s.take(j)));
        lemma_dec_value_nonneg(s.take(j));
        assert(dec_value(s.take(j + 1)) == dec_value(s.take(j)) * 10 + (s[j] as u32 - 48));
        assert(dec_value(s.take(j)) * 10 >= dec_value(s.take(j))) by (nonlinear_arith)
            requires
                dec_value(s.take(j)) >= 0,
        ;
    } else {
        assert(s.take(j) =~= s);
    }
}

/// Parses a string of decimal digits as a 64-bit integer: the value when
/// the string is non-empty, all digits, and in range; `None` otherwise.
pub fn parse_u64(s: &str) -> (r: Option<u64>)
    ensures
        ({
            let cs = s@;
            if cs.len() > 0 && all_digit_chars(cs) && dec_value(cs) <= u64::MAX {
                r == Some(dec_value(cs) as u64)
            } else {
                r is None
            }
        }),
{
    let n: usize = s.unicode_len();
    if n == 0 {
        return None;
    }
    let mut acc: u64 = 0;
    let mut i: usize = 0;
    while i < n
        invariant
            n == s@.len(),
            i <= n,
            all_digit_chars(s@.take(i as int)),
            acc == dec_value(s@.take(i as int)),
        decreases n - i,
    {
        let c: char = s.get_char(i);
        let u: u32 = c as u32;
        if u < 48 || u > 57 {
            proof {
                assert(!(48 <= s@[i as int] as u32 <= 57));
                assert(!all_digit_chars(s@));
            }
            return None;
        }
        let d: u64 = (u - 48) as u64;
        if acc > (u64::MAX - d) / 10 {
            proof {
                assert(acc * 10 + d > u64::MAX) by (nonlinear_arith)
                    requires
                        acc > (u64::MAX - d) / 10,
                        d <= 9,
                ;
                assert(s@.take(i as int + 1).drop_last() =~= s@.take(i as int));
                assert(s@.take(i as int + 1).last() == s@[i as int]);
                assert(dec_value(s@.take(i as int + 1)) == acc * 10 + d);
                if all_digit_chars(s@) {
                    lemma_dec_value_prefix_le(s@, i as int + 1);
                    assert(dec_value(s@) > u64::MAX);
                }
            }
            return None;
        }
        proof {
            assert(acc * 10 + d <= u64::MAX) by (nonlinear_arith)
                requires
                    acc <= (u64::MAX - d) / 10,
                    d <= 9,
            ;
            assert(s@.take(i as int + 1).drop_last() =~= s@.take(i as int));
            assert(s@.take(i as int + 1).last() == s@[i as int]);
            assert(all_digit_chars(s@.take(i as int + 1)));
        }
        acc = acc * 10 + d;
        i = i + 1;
    }
    proof {
        assert(s@.take(n as int) =~= s@);
    }
    Some(acc)
}

/// The order identifier built from its two 64-bit limbs:
/// `(high << 64) | low`.
pub open spec fn spec_compose_order_id(low: u64, high: u64) -> u128 {
    (((high as u128) << 64) | (low as u128)) as u128
}

/// Low 64 bits of an order identifier.
pub open spec fn spec_order_id_low(x: u128) -> u64 {
    (x & 0xFFFF_FFFF_FFFF_FFFF) as u64
}

/// High 64 bits of an order identifier.
pub open spec fn spec_order_id_high(x: u128) -> u64 {
    (x >> 64) as u64
}

/// Splitting any 128-bit order identifier into its low and high limbs and
/// composing them again reconstructs it, and composing any two limbs and
/// splitting the result hands the limbs back.
pub proof fn lemma_order_id_round_trip(x: u128, low: u64, high: u64)
    ensures
        spec_compose_order_id(spec_order_id_low(x), spec_order_id_high(x)) == x,
        spec_order_id_low(spec_compose_order_id(low, high)) == low,
        spec_order_id_high(spec_compose_order_id(low, high)) == high,
{
    assert(((((x >> 64) as u64) as u128) << 64 | (((x & 0xFFFF_FFFF_FFFF_FFFF) as u64) as u128))
        == x) by (bit_vector);
    assert({
        let c = ((high as u128) << 64) | (low as u128);
        (c & 0xFFFF_FFFF_FFFF_FFFF) as u64 == low && (c >> 64) as u64 == high
    }) by (bit_vector);
}

/// Composes an order identifier from its decimal limb encoding.
pub fn compose_order_id(low: u64, high: u64) -> (r: u128)
    ensures
        r == spec_compose_order_id(low, high),
{
    ((high as u128) << 64) | (low as u128)
}

/// Reads the order identifier out of the public inputs: the decimal limbs
/// at the low and high indices. Fails with `InvalidProof` when either limb
/// is not a 64-bit decimal number.
pub fn extract_order_id(public_signals: &Vec<String>) -> (r: Result<u128, ErrorCode>)
    requires
        public_signals@.len() >= MIN_PUBLIC_INPUTS,
    ensures
        ({
            let lo = public_signals@[ORDER_ID_LOW_INDEX as int]@;
            let hi = public_signals@[ORDER_ID_HIGH_INDEX as int]@;
            let lo_ok = lo.len() > 0 && all_digit_chars(lo) && dec_value(lo) <= u64::MAX;
            let hi_ok = hi.len() > 0 && all_digit_chars(hi) && dec_value(hi) <= u64::MAX;
            if lo_ok && hi_ok {
                r == Ok::<u128, ErrorCode>(
                    spec_compose_order_id(dec_value(lo) as u64, dec_value(hi) as u64),
                )
            } else {
                r == Err::<u128, ErrorCode>(ErrorCode::InvalidProof)
            }
        }),
{
    let low = parse_u64(public_signals[ORDER_ID_LOW_INDEX].as_str());
    match low {
        None => Err(ErrorCode::InvalidProof),
        Some(l) => {
            let high = parse_u64(public_signals[ORDER_ID_HIGH_INDEX].as_str());
            match high {
                None => Err(ErrorCode::InvalidProof),
                Some(h) => Ok(compose_order_id(l, h)),
            }
        },
    }
}

/// Whether the proof tuple has the wire shape the verifier accepts: a
/// 64-byte A point, a 128-byte B point and a 64-byte C point.
pub fn proof_shape_ok(proof_a: &Vec<u8>, proof_b: &Vec<u8>, proof_c: &Vec<u8>) -> (r: bool)
    ensures
        r == (proof_a@.len() == 64 && proof_b@.len() == 128 && proof_c@.len() == 64),
{
    proof_a.len() == 64 && proof_b.len() == 128 && proof_c.len() == 64
}

} // verus!
